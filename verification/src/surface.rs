//! Which public methods a type has, read off formatted source text.
//!
//! An inherent `impl` header stands on one line that ends in `{`, is closed by a
//! `}` at the same indentation, and has its methods one level in.

use crate::text::{
    begins_with, chars_of, ends_with, is_white_space, lines, lines_of, same, slice_text, strip_prefix,
    strip_suffix, texts, trimmed_front, white_space, without_last,
};
use vstd::prelude::*;

verus! {

/// Whether `part` stands at `at` in `s`.
pub open spec fn stands_at(s: Seq<char>, part: Seq<char>, at: int) -> bool {
    0 <= at && at + part.len() <= s.len() && s.subrange(at, at + part.len()) == part
}

/// Whether `part` stands somewhere in `s`.
pub open spec fn holds_text(s: Seq<char>, part: Seq<char>) -> bool {
    exists|at: int| #[trigger] stands_at(s, part, at)
}

/// What follows the last `part` in `s` at or before `at`; all of `s` where
/// there is none.
pub open spec fn behind_last(s: Seq<char>, part: Seq<char>, at: int) -> Seq<char>
    decreases at + 1,
{
    if at < 0 {
        s
    } else if stands_at(s, part, at) {
        s.skip(at + part.len())
    } else {
        behind_last(s, part, at - 1)
    }
}

/// The type's own name: what follows the last `::`.
pub open spec fn last_segment(path: Seq<char>) -> Seq<char> {
    behind_last(path, "::"@, path.len() as int)
}

/// Whether a line opens an inherent `impl` block of a type, however the type is
/// pathed.
pub open spec fn opens_block(line: Seq<char>, owner: Seq<char>) -> bool {
    let header = trimmed_front(line);
    let rest = header.skip("impl "@.len() as int);
    let self_type = without_last(rest, " {"@.len());
    &&& begins_with(header, "impl "@)
    &&& ends_with(rest, " {"@)
    &&& !holds_text(self_type, " for "@)
    &&& last_segment(self_type) == owner
}

/// `s` without `prefix` in front, where it begins with it.
pub open spec fn without_prefix(s: Seq<char>, prefix: Seq<char>) -> Seq<char> {
    if begins_with(s, prefix) {
        s.skip(prefix.len() as int)
    } else {
        s
    }
}

/// The position of the first `(` or `<`; the length where there is none.
pub open spec fn name_end(s: Seq<char>) -> int
    decreases s.len(),
{
    if s.len() == 0 || s[0] == '(' || s[0] == '<' {
        0
    } else {
        1 + name_end(s.drop_first())
    }
}

/// The name of the public method that a line declares at an indentation,
/// whatever its qualifiers.
pub open spec fn declared_method(line: Seq<char>, indent: Seq<char>) -> Option<Seq<char>> {
    let at_indent = line.skip(indent.len() as int);
    let behind_pub = at_indent.skip("pub "@.len() as int);
    let behind_qualifiers = without_prefix(
        without_prefix(without_prefix(behind_pub, "const "@), "async "@),
        "unsafe "@,
    );
    let behind_fn = behind_qualifiers.skip("fn "@.len() as int);
    if begins_with(line, indent) && begins_with(at_indent, "pub "@) && begins_with(behind_qualifiers, "fn "@)
        && name_end(behind_fn) < behind_fn.len() {
        Some(behind_fn.take(name_end(behind_fn)))
    } else {
        None
    }
}

/// The white space in front of a line.
pub open spec fn indentation(line: Seq<char>) -> Seq<char> {
    line.take(line.len() - trimmed_front(line).len())
}

/// How far a scan has come.
pub struct Scan {
    /// The indentation of the block that the scan is in.
    pub inside: Option<Seq<char>>,
    /// The public methods so far.
    pub methods: Seq<Seq<char>>,
    /// How many blocks there were.
    pub blocks: nat,
}

/// Takes in one line more.
pub open spec fn scan_step(s: Scan, line: Seq<char>, owner: Seq<char>) -> Scan {
    match s.inside {
        None => if opens_block(line, owner) {
            Scan { inside: Some(indentation(line)), blocks: s.blocks + 1, ..s }
        } else {
            s
        },
        Some(outer) => if line == outer + "}"@ {
            Scan { inside: None, ..s }
        } else {
            match declared_method(line, outer + "    "@) {
                Some(name) => Scan { methods: s.methods.push(name), ..s },
                None => s,
            }
        },
    }
}

/// Takes in lines.
pub open spec fn scan_lines(s: Scan, all: Seq<Seq<char>>, owner: Seq<char>) -> Scan
    decreases all.len(),
{
    if all.len() == 0 {
        s
    } else {
        scan_step(scan_lines(s, all.drop_last(), owner), all.last(), owner)
    }
}

/// Takes in source texts; a block does not go on in the next one.
pub open spec fn scan_sources(sources: Seq<Seq<char>>, owner: Seq<char>) -> Scan
    decreases sources.len(),
{
    if sources.len() == 0 {
        Scan { inside: None, methods: seq![], blocks: 0 }
    } else {
        let before = scan_sources(sources.drop_last(), owner);
        Scan { inside: None, ..scan_lines(before, lines_of(sources.last()), owner) }
    }
}

fn stands(chars: &Vec<char>, part: &str, at: usize) -> (r: bool)
    ensures
        r == stands_at(chars@, part@, at as int),
{
    let wanted = chars_of(part);
    if at > chars.len() || wanted.len() > chars.len() - at {
        return false;
    }
    let here = slice_text(chars, at, at + wanted.len());
    same(here.as_str(), part)
}

fn contains_text(text: &str, part: &str) -> (r: bool)
    ensures
        r == holds_text(text@, part@),
{
    let chars = chars_of(text);
    for at in 0..chars.len()
        invariant
            chars@ == text@,
            forall|j: int| 0 <= j < at ==> !#[trigger] stands_at(text@, part@, j),
    {
        if stands(&chars, part, at) {
            return true;
        }
    }
    if stands(&chars, part, chars.len()) {
        return true;
    }
    assert forall|j: int| !#[trigger] stands_at(text@, part@, j) by {
        if stands_at(text@, part@, j) {
            assert(0 <= j <= text@.len());
        }
    }
    false
}

fn own_name(path: &str) -> (r: String)
    ensures
        r@ == last_segment(path@),
{
    let chars = chars_of(path);
    let n: usize = chars.len();
    let mut at: usize = n;
    proof {
        reveal_strlit("::");
    }
    loop
        invariant
            chars@ == path@,
            n == chars@.len(),
            at <= n,
            "::"@.len() == 2,
            last_segment(path@) == behind_last(path@, "::"@, at as int),
        decreases at,
    {
        if stands(&chars, "::", at) {
            assert(at + 2 <= n);
            let r = slice_text(&chars, at + 2, n);
            assert(r@ =~= path@.skip(at + 2));
            return r;
        }
        if at == 0 {
            assert(behind_last(path@, "::"@, -1) == path@);
            return path.to_owned();
        }
        at = at - 1;
    }
}

/// Where a line's text begins, behind the white space in front of it.
fn text_start(chars: &Vec<char>) -> (r: usize)
    ensures
        r <= chars@.len(),
        chars@.skip(r as int) == trimmed_front(chars@),
        chars@.take(r as int) == indentation(chars@),
{
    let mut from: usize = 0;
    assert(chars@.skip(0) =~= chars@);
    while from < chars.len() && white_space(chars[from])
        invariant
            from <= chars@.len(),
            trimmed_front(chars@) == trimmed_front(chars@.skip(from as int)),
        decreases chars@.len() - from,
    {
        assert(chars@.skip(from as int).drop_first() =~= chars@.skip(from + 1));
        from = from + 1;
    }
    assert(chars@.skip(from as int).len() == chars@.len() - from);
    from
}

/// Whether a line opens an inherent `impl` block of a type.
pub fn opens_inherent_impl(line: &str, owner: &str) -> (r: bool)
    ensures
        r == opens_block(line@, owner@),
{
    let chars = chars_of(line);
    let from = text_start(&chars);
    let header = slice_text(&chars, from, chars.len());
    assert(header@ =~= chars@.skip(from as int));
    match strip_prefix(header.as_str(), "impl ") {
        Some(rest) => match strip_suffix(rest.as_str(), " {") {
            Some(self_type) => {
                let name = own_name(self_type.as_str());
                !contains_text(self_type.as_str(), " for ") && same(name.as_str(), owner)
            },
            None => false,
        },
        None => false,
    }
}

fn drop_prefix(text: String, prefix: &str) -> (r: String)
    ensures
        r@ == without_prefix(text@, prefix@),
{
    match strip_prefix(text.as_str(), prefix) {
        Some(rest) => rest,
        None => text,
    }
}

proof fn lemma_name_end(s: Seq<char>, i: int)
    requires
        0 <= i <= s.len(),
        forall|j: int| 0 <= j < i ==> s[j] != '(' && s[j] != '<',
        i < s.len() ==> s[i] == '(' || s[i] == '<',
    ensures
        name_end(s) == i,
    decreases s.len(),
{
    if i > 0 {
        let rest = s.drop_first();
        assert forall|j: int| 0 <= j < i - 1 implies rest[j] != '(' && rest[j] != '<' by {
            assert(rest[j] == s[j + 1]);
        }
        lemma_name_end(rest, i - 1);
    }
}

/// The name of the public method that a line declares at an indentation, if it
/// declares one.
pub fn public_method_name(line: &str, indent: &str) -> (r: Option<String>)
    ensures
        match r {
            Some(name) => declared_method(line@, indent@) == Some(name@),
            None => declared_method(line@, indent@) is None,
        },
{
    let at_indent = match strip_prefix(line, indent) {
        Some(rest) => rest,
        None => {
            return None;
        },
    };
    let rest = match strip_prefix(at_indent.as_str(), "pub ") {
        Some(rest) => rest,
        None => {
            return None;
        },
    };
    let rest = drop_prefix(rest, "const ");
    let rest = drop_prefix(rest, "async ");
    let rest = drop_prefix(rest, "unsafe ");
    let rest = match strip_prefix(rest.as_str(), "fn ") {
        Some(rest) => rest,
        None => {
            return None;
        },
    };
    let chars = chars_of(rest.as_str());
    let mut end: usize = 0;
    while end < chars.len() && chars[end] != '(' && chars[end] != '<'
        invariant
            end <= chars@.len(),
            forall|j: int| 0 <= j < end ==> chars@[j] != '(' && chars@[j] != '<',
        decreases chars@.len() - end,
    {
        end = end + 1;
    }
    proof {
        lemma_name_end(chars@, end as int);
    }
    if end == chars.len() {
        return None;
    }
    let name = slice_text(&chars, 0, end);
    assert(name@ =~= rest@.take(end as int));
    Some(name)
}

/// The names of the public methods in every inherent `impl` block of a type
/// across the sources, and how many such blocks there are.
pub fn public_methods(sources: &[String], owner: &str) -> (r: (Vec<String>, usize))
    requires
        scan_sources(texts(sources@), owner@).blocks <= usize::MAX,
    ensures
        texts(r.0@) == scan_sources(texts(sources@), owner@).methods,
        r.1 == scan_sources(texts(sources@), owner@).blocks,
{
    let mut methods: Vec<String> = Vec::new();
    let mut blocks: usize = 0;
    let ghost all = texts(sources@);
    let ghost whole = scan_sources(all, owner@);
    assert(texts(methods@) =~= seq![]);
    for i in 0..sources.len()
        invariant
            all == texts(sources@),
            whole == scan_sources(all, owner@),
            whole.blocks <= usize::MAX,
            scan_sources(all.take(i as int), owner@) == (Scan {
                inside: None,
                methods: texts(methods@),
                blocks: blocks as nat,
            }),
    {
        let source_lines = lines(sources[i].as_str());
        let ghost model = texts(source_lines@);
        let ghost before = scan_sources(all.take(i as int), owner@);
        let mut inside: Option<String> = None;
        assert(all.take(i + 1).drop_last() =~= all.take(i as int));
        assert(all.take(i + 1).last() == sources@[i as int]@);
        for n in 0..source_lines.len()
            invariant
                i < sources@.len(),
                all == texts(sources@),
                whole == scan_sources(all, owner@),
                whole.blocks <= usize::MAX,
                model == texts(source_lines@),
                model == lines_of(sources@[i as int]@),
                all.take(i + 1).drop_last() == all.take(i as int),
                all.take(i + 1).last() == sources@[i as int]@,
                before == scan_sources(all.take(i as int), owner@),
                scan_lines(before, model.take(n as int), owner@) == (Scan {
                    inside: match inside {
                        Some(outer) => Some(outer@),
                        None => None,
                    },
                    methods: texts(methods@),
                    blocks: blocks as nat,
                }),
        {
            let line = &source_lines[n];
            let ghost found = texts(methods@);
            proof {
                assert(model.take(n + 1).drop_last() =~= model.take(n as int));
                assert(model.take(n + 1).last() == line@);
                lemma_blocks_grow(before, model, owner@, n + 1);
                lemma_source_blocks_grow(all, owner@, i + 1);
                assert(model.take(model.len() as int) =~= model);
            }
            match inside {
                None => {
                    if opens_inherent_impl(line.as_str(), owner) {
                        let chars = chars_of(line.as_str());
                        let from = text_start(&chars);
                        let outer = slice_text(&chars, 0, from);
                        assert(outer@ =~= chars@.take(from as int));
                        inside = Some(outer);
                        blocks = blocks + 1;
                    }
                },
                Some(outer) => {
                    let mut close = outer.clone();
                    close.append("}");
                    let mut inner = outer.clone();
                    inner.append("    ");
                    if same(line.as_str(), close.as_str()) {
                        inside = None;
                    } else {
                        if let Some(name) = public_method_name(line.as_str(), inner.as_str()) {
                            let ghost added = name@;
                            methods.push(name);
                            assert(texts(methods@) =~= found.push(added));
                        }
                        inside = Some(outer);
                    }
                },
            }
        }
        assert(model.take(source_lines@.len() as int) =~= model);
    }
    assert(all.take(sources@.len() as int) =~= all);
    (methods, blocks)
}

proof fn lemma_blocks_grow(s: Scan, all: Seq<Seq<char>>, owner: Seq<char>, n: int)
    requires
        0 <= n <= all.len(),
    ensures
        scan_lines(s, all.take(n), owner).blocks <= scan_lines(s, all, owner).blocks,
        s.blocks <= scan_lines(s, all, owner).blocks,
    decreases all.len(),
{
    if all.len() > 0 {
        let front = all.drop_last();
        if n < all.len() {
            lemma_blocks_grow(s, front, owner, n);
            assert(front.take(n) =~= all.take(n));
        } else {
            lemma_blocks_grow(s, front, owner, front.len() as int);
            assert(all.take(n) =~= all);
        }
    } else {
        assert(all.take(n) =~= all);
    }
}

proof fn lemma_source_blocks_grow(all: Seq<Seq<char>>, owner: Seq<char>, n: int)
    requires
        0 <= n <= all.len(),
    ensures
        scan_sources(all.take(n), owner).blocks <= scan_sources(all, owner).blocks,
    decreases all.len(),
{
    if n < all.len() {
        let front = all.drop_last();
        lemma_source_blocks_grow(front, owner, n);
        assert(front.take(n) =~= all.take(n));
        let before = scan_sources(front, owner);
        let last = lines_of(all.last());
        lemma_blocks_grow(before, last, owner, last.len() as int);
    } else {
        assert(all.take(n) =~= all);
    }
}

/// A line that declares a public method, at the given indentation and with the
/// qualifiers in their order, names it, whatever follows its name.
pub proof fn law_public_methods_are_named(
    indent: Seq<char>,
    is_const: bool,
    is_async: bool,
    name: Seq<char>,
    open: char,
    rest: Seq<char>,
)
    requires
        !name.contains('('),
        !name.contains('<'),
        open == '(' || open == '<',
        name.len() > 0,
    ensures
        ({
            let qualifiers = (if is_const {
                "const "@
            } else {
                seq![]
            }) + if is_async {
                "async "@
            } else {
                seq![]
            };
            declared_method(
                indent + ("pub "@ + (qualifiers + ("fn "@ + (name + seq![open] + rest)))),
                indent,
            ) == Some(name)
        }),
{
    reveal_strlit("pub ");
    reveal_strlit("const ");
    reveal_strlit("async ");
    reveal_strlit("unsafe ");
    reveal_strlit("fn ");
    let tail = name + seq![open] + rest;
    let function = "fn "@ + tail;
    let first: Seq<char> = if is_const {
        "const "@
    } else {
        seq![]
    };
    let second: Seq<char> = if is_async {
        "async "@
    } else {
        seq![]
    };
    let behind_pub = (first + second) + function;
    let at_indent = "pub "@ + behind_pub;
    let line = indent + at_indent;
    assert(line.take(indent.len() as int) =~= indent);
    assert(line.skip(indent.len() as int) =~= at_indent);
    assert(at_indent.take("pub "@.len() as int) =~= "pub "@);
    assert(at_indent.skip("pub "@.len() as int) =~= behind_pub);
    let behind_const = second + function;
    assert(without_prefix(behind_pub, "const "@) == behind_const) by {
        if is_const {
            assert(behind_pub.take("const "@.len() as int) =~= "const "@);
            assert(behind_pub.skip("const "@.len() as int) =~= behind_const);
        } else {
            assert(behind_pub =~= behind_const);
            assert(behind_const[0] == 'a' || behind_const[0] == 'f');
            if begins_with(behind_const, "const "@) {
                assert(behind_const.take("const "@.len() as int)[0] == behind_const[0]);
            }
        }
    }
    assert(without_prefix(behind_const, "async "@) == function) by {
        if is_async {
            assert(behind_const.take("async "@.len() as int) =~= "async "@);
            assert(behind_const.skip("async "@.len() as int) =~= function);
        } else {
            assert(behind_const =~= function);
            if begins_with(function, "async "@) {
                assert(function.take("async "@.len() as int)[0] == function[0]);
            }
        }
    }
    assert(without_prefix(function, "unsafe "@) == function) by {
        if begins_with(function, "unsafe "@) {
            assert(function.take("unsafe "@.len() as int)[0] == function[0]);
        }
    }
    assert(function.take("fn "@.len() as int) =~= "fn "@);
    assert(function.skip("fn "@.len() as int) =~= tail);
    lemma_name_ends_at(name, open, rest);
    assert(tail.take(name.len() as int) =~= name);
}

proof fn lemma_name_ends_at(name: Seq<char>, open: char, rest: Seq<char>)
    requires
        !name.contains('('),
        !name.contains('<'),
        open == '(' || open == '<',
    ensures
        name_end(name + seq![open] + rest) == name.len(),
    decreases name.len(),
{
    let all = name + seq![open] + rest;
    if name.len() == 0 {
        assert(all[0] == open);
    } else {
        let shorter = name.drop_first();
        assert(name.contains(name[0]));
        assert forall|i: int| 0 <= i < shorter.len() implies shorter[i] != '(' && shorter[i] != '<' by {
            assert(name.contains(name[i + 1]));
        }
        lemma_name_ends_at(shorter, open, rest);
        assert(all.drop_first() =~= shorter + seq![open] + rest);
    }
}

/// A method counts inside its type's block alone: a line outside any block adds
/// none, a closing brace at the block's indentation ends it, and what a scan found
/// stays found.
pub proof fn law_methods_are_found_inside_blocks(s: Scan, line: Seq<char>, owner: Seq<char>)
    ensures
        s.inside is None ==> scan_step(s, line, owner).methods == s.methods,
        s.inside is None && !opens_block(line, owner) ==> scan_step(s, line, owner) == s,
        s.inside is None && opens_block(line, owner) ==> scan_step(s, line, owner).inside is Some && scan_step(
            s,
            line,
            owner,
        ).blocks == s.blocks + 1,
        s.inside is Some && line == s.inside->0 + "}"@ ==> scan_step(s, line, owner).inside is None && scan_step(
            s,
            line,
            owner,
        ).methods == s.methods,
        s.inside is Some && line != s.inside->0 + "}"@ ==> scan_step(s, line, owner).inside == s.inside && scan_step(
            s,
            line,
            owner,
        ).blocks == s.blocks,
        s.inside is Some && line != s.inside->0 + "}"@ && declared_method(line, s.inside->0 + "    "@) is Some
            ==> scan_step(s, line, owner).methods == s.methods.push(
            declared_method(line, s.inside->0 + "    "@)->0,
        ),
        s.methods.is_prefix_of(scan_step(s, line, owner).methods),
{
}

/// A type's block is opened by a line with `impl`, the type, under its own name or
/// behind a path, and a brace, however far it is indented.
pub proof fn law_blocks_are_opened_by_their_type(indent: Seq<char>, path: Seq<char>, owner: Seq<char>)
    requires
        forall|i: int| 0 <= i < indent.len() ==> is_white_space(#[trigger] indent[i]),
        owner.len() > 0,
        !owner.contains(':'),
        !owner.contains(' '),
        !path.contains(' '),
    ensures
        opens_block(indent + ("impl "@ + owner + " {"@), owner),
        opens_block(indent + ("impl "@ + (path + "::"@ + owner) + " {"@), owner),
{
    reveal_strlit("impl ");
    reveal_strlit(" {");
    reveal_strlit("::");
    reveal_strlit(" for ");
    lemma_opens_block(indent, owner, owner);
    lemma_last_segment_alone(owner);
    let full = path + "::"@ + owner;
    assert(!full.contains(' ')) by {
        assert forall|i: int| 0 <= i < full.len() implies full[i] != ' ' by {
            if i < path.len() {
                assert(path.contains(path[i]));
            } else if i >= path.len() + 2 {
                assert(owner.contains(owner[i - path.len() - 2]));
            }
        }
    }
    lemma_opens_block(indent, full, owner);
    lemma_last_segment_of_path(path, owner);
}

/// An implementation of a trait is no block of its type's own.
pub proof fn law_trait_blocks_do_not_count(indent: Seq<char>, name: Seq<char>, own_type: Seq<char>, owner: Seq<char>)
    requires
        forall|i: int| 0 <= i < indent.len() ==> is_white_space(#[trigger] indent[i]),
    ensures
        !opens_block(indent + ("impl "@ + (name + " for "@ + own_type) + " {"@), owner),
{
    reveal_strlit("impl ");
    reveal_strlit(" {");
    reveal_strlit(" for ");
    let own = name + " for "@ + own_type;
    let header = "impl "@ + own + " {"@;
    let line = indent + header;
    lemma_indent_is_trimmed(indent, header);
    let rest = header.skip("impl "@.len() as int);
    assert(rest =~= own + " {"@);
    let self_type = without_last(rest, " {"@.len());
    assert(self_type =~= own);
    assert(own.subrange(name.len() as int, name.len() as int + " for "@.len()) =~= " for "@);
    assert(stands_at(own, " for "@, name.len() as int));
}

proof fn lemma_indent_is_trimmed(indent: Seq<char>, header: Seq<char>)
    requires
        forall|i: int| 0 <= i < indent.len() ==> is_white_space(#[trigger] indent[i]),
        header.len() > 0,
        !is_white_space(header[0]),
    ensures
        trimmed_front(indent + header) == header,
    decreases indent.len(),
{
    if indent.len() == 0 {
        assert(indent + header =~= header);
    } else {
        let shorter = indent.drop_first();
        assert forall|i: int| 0 <= i < shorter.len() implies is_white_space(#[trigger] shorter[i]) by {
            assert(is_white_space(indent[i + 1]));
        }
        lemma_indent_is_trimmed(shorter, header);
        assert(is_white_space(indent[0]));
        assert((indent + header)[0] == indent[0]);
        assert((indent + header).drop_first() =~= shorter + header);
    }
}

proof fn lemma_opens_block(indent: Seq<char>, self_type: Seq<char>, owner: Seq<char>)
    requires
        forall|i: int| 0 <= i < indent.len() ==> is_white_space(#[trigger] indent[i]),
        !self_type.contains(' '),
    ensures
        opens_block(indent + ("impl "@ + self_type + " {"@), owner) <==> last_segment(self_type) == owner,
{
    reveal_strlit("impl ");
    reveal_strlit(" {");
    reveal_strlit(" for ");
    let header = "impl "@ + self_type + " {"@;
    lemma_indent_is_trimmed(indent, header);
    assert(header.take("impl "@.len() as int) =~= "impl "@);
    let rest = header.skip("impl "@.len() as int);
    assert(rest =~= self_type + " {"@);
    assert(rest.skip(rest.len() - " {"@.len()) =~= " {"@);
    assert(without_last(rest, " {"@.len()) =~= self_type);
    assert(!holds_text(self_type, " for "@)) by {
        if holds_text(self_type, " for "@) {
            let at = choose|at: int| #[trigger] stands_at(self_type, " for "@, at);
            assert(self_type.subrange(at, at + " for "@.len())[0] == self_type[at]);
            assert(self_type.contains(self_type[at]));
        }
    }
}

proof fn lemma_behind_last(s: Seq<char>, part: Seq<char>, from: int, at: int)
    requires
        -1 <= at <= from,
        forall|j: int| at < j <= from ==> !stands_at(s, part, j),
        at >= 0 ==> stands_at(s, part, at),
    ensures
        behind_last(s, part, from) == if at >= 0 {
            s.skip(at + part.len())
        } else {
            s
        },
    decreases from - at,
{
    if at < from {
        assert(!stands_at(s, part, from));
        lemma_behind_last(s, part, from - 1, at);
    }
}

proof fn lemma_last_segment_alone(owner: Seq<char>)
    requires
        !owner.contains(':'),
    ensures
        last_segment(owner) == owner,
{
    reveal_strlit("::");
    assert forall|j: int| -1 < j <= owner.len() implies !stands_at(owner, "::"@, j) by {
        if stands_at(owner, "::"@, j) {
            assert(owner.subrange(j, j + "::"@.len())[0] == owner[j]);
            assert(owner.contains(owner[j]));
        }
    }
    lemma_behind_last(owner, "::"@, owner.len() as int, -1);
}

proof fn lemma_last_segment_of_path(path: Seq<char>, owner: Seq<char>)
    requires
        !owner.contains(':'),
    ensures
        last_segment(path + "::"@ + owner) == owner,
{
    reveal_strlit("::");
    let full = path + "::"@ + owner;
    let at = path.len() as int;
    assert(full.subrange(at, at + "::"@.len()) =~= "::"@);
    assert forall|j: int| at < j <= full.len() implies !stands_at(full, "::"@, j) by {
        if stands_at(full, "::"@, j) {
            assert(full.subrange(j, j + "::"@.len())[1] == full[j + 1]);
            assert(owner.contains(owner[j + 1 - at - 2]));
        }
    }
    lemma_behind_last(full, "::"@, full.len() as int, at);
    assert(full.skip(at + 2) =~= owner);
}

} // verus!
