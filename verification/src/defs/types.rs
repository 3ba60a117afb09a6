//! Postgres column types: which value type they have, which of them compare,
//! and which can be join keys.

use super::ast::{RelationshipDef, ValueType};
use super::error::{CatalogError, RelationshipTypeMismatch, ValidationError};
use crate::map::TextMap;
use crate::text::{
    chars_of, find, find_in, is_white_space, law_trimming_leaves_the_middle, lemma_find_is, same, slice_text, trim,
    trimmed,
};
use vstd::prelude::*;

verus! {

/// A type's name without its modifier: what stands before the first `(`,
/// without surrounding white space.
pub open spec fn base_type(pg_type: Seq<char>) -> Seq<char> {
    trimmed(pg_type.take(find(pg_type, '(')))
}

/// A type's name without its modifier.
fn base(pg_type: &str) -> (r: String)
    ensures
        r@ == base_type(pg_type@),
{
    let chars = chars_of(pg_type);
    let end = find_in(&chars, 0, chars.len(), '(');
    assert(chars@.subrange(0, chars@.len() as int) =~= chars@);
    let head = slice_text(&chars, 0, end);
    assert(head@ =~= pg_type@.take(find(pg_type@, '(')));
    trim(head.as_str())
}

pub open spec fn is_integer_type(base: Seq<char>) -> bool {
    base == "smallint"@ || base == "integer"@ || base == "bigint"@
}

pub open spec fn is_fractional_type(base: Seq<char>) -> bool {
    base == "numeric"@ || base == "real"@ || base == "double precision"@
}

/// The value type of a column: anything that is not clearly numeric, boolean or
/// a UUID is text.
pub open spec fn value_type_of(pg_type: Seq<char>) -> ValueType {
    let base = base_type(pg_type);
    if base == "uuid"@ {
        ValueType::Uuid
    } else if base == "boolean"@ {
        ValueType::Boolean
    } else if is_integer_type(base) || is_fractional_type(base) {
        ValueType::Numeric
    } else {
        ValueType::Text
    }
}

/// The value type of a column of the given Postgres type.
pub fn value_type_from_pg(pg_type: &str) -> (r: ValueType)
    ensures
        r == value_type_of(pg_type@),
        r is Uuid <==> base_type(pg_type@) == "uuid"@,
        r is Boolean <==> base_type(pg_type@) == "boolean"@,
        r is Numeric <==> (base_type(pg_type@) == "smallint"@ || base_type(pg_type@) == "integer"@ || base_type(
            pg_type@,
        ) == "bigint"@ || base_type(pg_type@) == "numeric"@ || base_type(pg_type@) == "real"@ || base_type(pg_type@)
            == "double precision"@),
{
    proof {
        lemma_names_differ();
    }
    let base = base(pg_type);
    let name = base.as_str();
    if same(name, "uuid") {
        ValueType::Uuid
    } else if same(name, "boolean") {
        ValueType::Boolean
    } else if same(name, "smallint") || same(name, "integer") || same(name, "bigint") || same(name, "numeric") || same(
        name,
        "real",
    ) || same(name, "double precision") {
        ValueType::Numeric
    } else {
        ValueType::Text
    }
}

/// The first column whose type is not known; their number where all are.
pub open spec fn first_unknown(pg_types: Seq<Option<String>>) -> int
    decreases pg_types.len(),
{
    if pg_types.len() == 0 || pg_types[0] is None {
        0
    } else {
        1 + first_unknown(pg_types.drop_first())
    }
}

/// The value types of columns, given in the same order as their types.
pub open spec fn resolved_types(columns: Seq<String>, pg_types: Seq<Option<String>>) -> Map<Seq<char>, ValueType>
    decreases columns.len(),
{
    if columns.len() == 0 {
        Map::empty()
    } else {
        resolved_types(columns.drop_last(), pg_types.drop_last()).insert(
            columns.last()@,
            value_type_of(pg_types.last()->0@),
        )
    }
}

proof fn lemma_first_unknown(pg_types: Seq<Option<String>>, i: int)
    requires
        0 <= i <= pg_types.len(),
        forall|j: int| 0 <= j < i ==> (#[trigger] pg_types[j]) is Some,
        i < pg_types.len() ==> pg_types[i] is None,
    ensures
        first_unknown(pg_types) == i,
    decreases pg_types.len(),
{
    if i > 0 {
        assert(pg_types[0] is Some);
        let rest = pg_types.drop_first();
        assert forall|j: int| 0 <= j < i - 1 implies (#[trigger] rest[j]) is Some by {
            assert(pg_types[j + 1] is Some);
        }
        lemma_first_unknown(rest, i - 1);
    }
}

/// The value types of a related table's columns, from their Postgres types
/// where they are there. The first column that is not there is an error.
pub fn resolve_column_types(table: &str, columns: &Vec<String>, pg_types: &Vec<Option<String>>) -> (r: Result<
    TextMap<ValueType>,
    CatalogError,
>)
    requires
        columns@.len() == pg_types@.len(),
    ensures
        r is Ok <==> first_unknown(pg_types@) == pg_types@.len(),
        r is Ok <==> forall|i: int| 0 <= i < pg_types@.len() ==> (#[trigger] pg_types@[i]) is Some,
        r matches Ok(types) ==> types@ == resolved_types(columns@, pg_types@),
        r matches Ok(types) ==> forall|i: int|
            0 <= i < columns@.len() && is_last_of_its_name(columns@, i) ==> types@.contains_key(
                (#[trigger] columns@[i])@,
            ) && types@[columns@[i]@] == value_type_of(pg_types@[i]->0@),
        r matches Ok(types) ==> forall|c: Seq<char>| #[trigger]
            types@.contains_key(c) ==> exists|i: int| 0 <= i < columns@.len() && (#[trigger] columns@[i])@ == c,
        r matches Err(e) ==> match e {
            CatalogError::Validate(ValidationError::UnknownRelationshipColumn { table: t, column: c }) => t@ == table@
                && c == columns@[first_unknown(pg_types@)],
            _ => false,
        },
{
    let mut types: TextMap<ValueType> = TextMap::new();
    for i in 0..columns.len()
        invariant
            columns@.len() == pg_types@.len(),
            forall|j: int| 0 <= j < i ==> (#[trigger] pg_types@[j]) is Some,
            types@ == resolved_types(columns@.take(i as int), pg_types@.take(i as int)),
    {
        proof {
            assert(columns@.take(i + 1).drop_last() =~= columns@.take(i as int));
            assert(pg_types@.take(i + 1).drop_last() =~= pg_types@.take(i as int));
        }
        match &pg_types[i] {
            Some(pg_type) => {
                types = types.insert(columns[i].clone(), value_type_from_pg(pg_type.as_str()));
            },
            None => {
                proof {
                    lemma_first_unknown(pg_types@, i as int);
                }
                return Err(
                    CatalogError::Validate(
                        ValidationError::UnknownRelationshipColumn {
                            table: table.to_owned(),
                            column: columns[i].clone(),
                        },
                    ),
                );
            },
        }
    }
    proof {
        lemma_first_unknown(pg_types@, pg_types@.len() as int);
        law_types_are_resolved_by_column(columns@, pg_types@);
        assert(columns@.take(columns@.len() as int) =~= columns@);
        assert(pg_types@.take(pg_types@.len() as int) =~= pg_types@);
    }
    Ok(types)
}

/// The family of types that a type compares with.
pub open spec fn family_of(pg_type: Seq<char>) -> Seq<char> {
    let base = base_type(pg_type);
    if is_integer_type(base) {
        "integer"@
    } else if is_fractional_type(base) {
        "numeric"@
    } else if base == "text"@ || base == "character varying"@ || base == "character"@ {
        "text"@
    } else {
        base
    }
}

/// The family of types that a type compares with: its own name, except where
/// several types compare with one another.
pub fn type_family(pg_type: &str) -> (r: String)
    ensures
        r@ == family_of(pg_type@),
{
    let base = base(pg_type);
    let name = base.as_str();
    if same(name, "smallint") || same(name, "integer") || same(name, "bigint") {
        "integer".to_owned()
    } else if same(name, "numeric") || same(name, "real") || same(name, "double precision") {
        "numeric".to_owned()
    } else if same(name, "text") || same(name, "character varying") || same(name, "character") {
        "text".to_owned()
    } else {
        base
    }
}

/// Whether a type's values are equal exactly where their texts are.
pub open spec fn is_text_stable(pg_type: Seq<char>) -> bool {
    let base = base_type(pg_type);
    is_integer_type(base) || base == "uuid"@ || base == "text"@ || base == "character varying"@
}

/// Whether a type's values are equal exactly where their texts are.
pub fn is_text_stable_join_key_type(pg_type: &str) -> (r: bool)
    ensures
        r == is_text_stable(pg_type@),
        r <==> (base_type(pg_type@) == "smallint"@ || base_type(pg_type@) == "integer"@ || base_type(pg_type@)
            == "bigint"@ || base_type(pg_type@) == "uuid"@ || base_type(pg_type@) == "text"@ || base_type(pg_type@)
            == "character varying"@),
{
    let base = base(pg_type);
    let name = base.as_str();
    same(name, "smallint") || same(name, "integer") || same(name, "bigint") || same(name, "uuid") || same(name, "text")
        || same(name, "character varying")
}

/// Whether the error says that a join column's type is not supported.
pub open spec fn is_unsupported_key(
    error: CatalogError,
    name: Seq<char>,
    table: Seq<char>,
    column: Seq<char>,
    pg_type: Seq<char>,
) -> bool {
    match error {
        CatalogError::Validate(
            ValidationError::RelationshipUnsupportedJoinKeyType { name: n, table: t, column: c, pg_type: p },
        ) => n@ == name && t@ == table && c@ == column && p@ == pg_type,
        _ => false,
    }
}

fn unsupported_key(name: &String, table: &String, column: &String, pg_type: &str) -> (r: CatalogError)
    ensures
        is_unsupported_key(r, name@, table@, column@, pg_type@),
{
    CatalogError::Validate(
        ValidationError::RelationshipUnsupportedJoinKeyType {
            name: name.clone(),
            table: table.clone(),
            column: column.clone(),
            pg_type: pg_type.to_owned(),
        },
    )
}

/// Rejects a relationship unless both join columns' types are equal exactly
/// where their texts are; the declaring side is looked at first.
pub fn assert_join_key_type_supported(def: &RelationshipDef, from_type: &str, to_type: &str) -> (r: Result<
    (),
    CatalogError,
>)
    ensures
        r is Ok <==> is_text_stable(from_type@) && is_text_stable(to_type@),
        r matches Err(e) ==> if !is_text_stable(from_type@) {
            is_unsupported_key(e, def.name@, def.from_table@, def.from_col@, from_type@)
        } else {
            is_unsupported_key(e, def.name@, def.to_table@, def.to_col@, to_type@)
        },
{
    if !is_text_stable_join_key_type(from_type) {
        return Err(unsupported_key(&def.name, &def.from_table, &def.from_col, from_type));
    }
    if !is_text_stable_join_key_type(to_type) {
        return Err(unsupported_key(&def.name, &def.to_table, &def.to_col, to_type));
    }
    Ok(())
}

/// Whether the error says that the join columns' types do not compare.
pub open spec fn is_mismatch(error: CatalogError, def: RelationshipDef, from_type: Seq<char>, to_type: Seq<char>) -> bool {
    match error {
        CatalogError::Validate(ValidationError::RelationshipTypeMismatch(m)) => {
            &&& m.name == def.name
            &&& m.from_table == def.from_table
            &&& m.from_col == def.from_col
            &&& m.from_type@ == from_type
            &&& m.to_table == def.to_table
            &&& m.to_col == def.to_col
            &&& m.to_type@ == to_type
        },
        _ => false,
    }
}

/// Rejects a relationship unless its join columns' types compare.
pub fn assert_comparable_types(def: &RelationshipDef, from_type: &str, to_type: &str) -> (r: Result<(), CatalogError>)
    ensures
        r is Ok <==> family_of(from_type@) == family_of(to_type@),
        r is Ok <==> are_comparable(base_type(from_type@), base_type(to_type@)),
        r matches Err(e) ==> is_mismatch(e, *def, from_type@, to_type@),
{
    proof {
        law_families(from_type@, to_type@);
    }
    let from_family = type_family(from_type);
    let to_family = type_family(to_type);
    if same(from_family.as_str(), to_family.as_str()) {
        return Ok(());
    }
    Err(
        CatalogError::Validate(
            ValidationError::RelationshipTypeMismatch(
                Box::new(
                    RelationshipTypeMismatch {
                        name: def.name.clone(),
                        from_table: def.from_table.clone(),
                        from_col: def.from_col.clone(),
                        from_type: from_type.to_owned(),
                        to_table: def.to_table.clone(),
                        to_col: def.to_col.clone(),
                        to_type: to_type.to_owned(),
                    },
                ),
            ),
        ),
    )
}

/// A type compares with itself, and comparing does not depend on which type is
/// on which side; modifiers make no difference.
pub proof fn law_families_ignore_modifiers(a: Seq<char>, b: Seq<char>)
    requires
        base_type(a) == base_type(b),
    ensures
        family_of(a) == family_of(b),
        is_text_stable(a) == is_text_stable(b),
        value_type_of(a) == value_type_of(b),
{
}

/// The names of types that are looked for are different texts.
proof fn lemma_names_differ()
    ensures
        "uuid"@ != "boolean"@,
        "uuid"@ != "smallint"@,
        "uuid"@ != "integer"@,
        "uuid"@ != "bigint"@,
        "uuid"@ != "numeric"@,
        "uuid"@ != "real"@,
        "uuid"@ != "double precision"@,
        "uuid"@ != "text"@,
        "uuid"@ != "character varying"@,
        "uuid"@ != "character"@,
        "boolean"@ != "smallint"@,
        "boolean"@ != "integer"@,
        "boolean"@ != "bigint"@,
        "boolean"@ != "numeric"@,
        "boolean"@ != "real"@,
        "boolean"@ != "double precision"@,
        "boolean"@ != "text"@,
        "boolean"@ != "character varying"@,
        "boolean"@ != "character"@,
        "smallint"@ != "integer"@,
        "smallint"@ != "bigint"@,
        "smallint"@ != "numeric"@,
        "smallint"@ != "real"@,
        "smallint"@ != "double precision"@,
        "smallint"@ != "text"@,
        "smallint"@ != "character varying"@,
        "smallint"@ != "character"@,
        "integer"@ != "bigint"@,
        "integer"@ != "numeric"@,
        "integer"@ != "real"@,
        "integer"@ != "double precision"@,
        "integer"@ != "text"@,
        "integer"@ != "character varying"@,
        "integer"@ != "character"@,
        "bigint"@ != "numeric"@,
        "bigint"@ != "real"@,
        "bigint"@ != "double precision"@,
        "bigint"@ != "text"@,
        "bigint"@ != "character varying"@,
        "bigint"@ != "character"@,
        "numeric"@ != "real"@,
        "numeric"@ != "double precision"@,
        "numeric"@ != "text"@,
        "numeric"@ != "character varying"@,
        "numeric"@ != "character"@,
        "real"@ != "double precision"@,
        "real"@ != "text"@,
        "real"@ != "character varying"@,
        "real"@ != "character"@,
        "double precision"@ != "text"@,
        "double precision"@ != "character varying"@,
        "double precision"@ != "character"@,
        "text"@ != "character varying"@,
        "text"@ != "character"@,
        "character varying"@ != "character"@,
{
    reveal_strlit("uuid");
    reveal_strlit("boolean");
    reveal_strlit("smallint");
    reveal_strlit("integer");
    reveal_strlit("bigint");
    reveal_strlit("numeric");
    reveal_strlit("real");
    reveal_strlit("double precision");
    reveal_strlit("text");
    reveal_strlit("character varying");
    reveal_strlit("character");
    assert("uuid"@[0] == 'u' && "boolean"@[0] == 'b' && "boolean"@[1] == 'o');
    assert("smallint"@[0] == 's' && "integer"@[0] == 'i' && "bigint"@[0] == 'b' && "bigint"@[1] == 'i');
    assert("numeric"@[0] == 'n' && "real"@[0] == 'r' && "double precision"@[0] == 'd');
    assert("text"@[0] == 't' && "character varying"@[0] == 'c' && "character"@[0] == 'c');
    assert("character varying"@.len() != "character"@.len());
}

/// Whether no later column has the name.
pub open spec fn is_last_of_its_name(columns: Seq<String>, i: int) -> bool {
    forall|j: int| i < j < columns.len() ==> (#[trigger] columns[j])@ != columns[i]@
}

/// Each column, and nothing else, has a type: that of the last column of its
/// name.
pub proof fn law_types_are_resolved_by_column(columns: Seq<String>, pg_types: Seq<Option<String>>)
    requires
        columns.len() == pg_types.len(),
    ensures
        forall|i: int|
            0 <= i < columns.len() && is_last_of_its_name(columns, i) ==> resolved_types(
                columns,
                pg_types,
            ).contains_key((#[trigger] columns[i])@) && resolved_types(columns, pg_types)[columns[i]@] == value_type_of(
                pg_types[i]->0@,
            ),
        forall|c: Seq<char>| #[trigger]
            resolved_types(columns, pg_types).contains_key(c) ==> exists|i: int|
                0 <= i < columns.len() && (#[trigger] columns[i])@ == c,
    decreases columns.len(),
{
    if columns.len() > 0 {
        let (front, types) = (columns.drop_last(), pg_types.drop_last());
        law_types_are_resolved_by_column(front, types);
        let all = resolved_types(columns, pg_types);
        let n = columns.len() - 1;
        assert forall|i: int| 0 <= i < columns.len() && is_last_of_its_name(columns, i) implies all.contains_key(
            (#[trigger] columns[i])@,
        ) && all[columns[i]@] == value_type_of(pg_types[i]->0@) by {
            if i < n {
                assert(columns[n]@ != columns[i]@);
                assert(is_last_of_its_name(front, i)) by {
                    assert forall|j: int| i < j < front.len() implies (#[trigger] front[j])@ != front[i]@ by {
                        assert(columns[j]@ != columns[i]@);
                    }
                }
                assert(front[i] == columns[i]);
            }
        }
        assert forall|c: Seq<char>| #[trigger] all.contains_key(c) implies exists|i: int|
            0 <= i < columns.len() && (#[trigger] columns[i])@ == c by {
            if c == columns[n]@ {
                assert(columns[n]@ == c);
            } else {
                assert(resolved_types(front, types).contains_key(c));
                let i = choose|i: int| 0 <= i < front.len() && (#[trigger] front[i])@ == c;
                assert(columns[i]@ == c);
            }
        }
    }
}

/// Whether two types, without modifiers, compare: they are the same, or both
/// integers, or both fractional numbers, or both texts.
pub open spec fn are_comparable(a: Seq<char>, b: Seq<char>) -> bool {
    ||| a == b
    ||| (a == "smallint"@ || a == "integer"@ || a == "bigint"@) && (b == "smallint"@ || b == "integer"@ || b
        == "bigint"@)
    ||| (a == "numeric"@ || a == "real"@ || a == "double precision"@) && (b == "numeric"@ || b == "real"@ || b
        == "double precision"@)
    ||| (a == "text"@ || a == "character varying"@ || a == "character"@) && (b == "text"@ || b == "character varying"@
        || b == "character"@)
}

/// Two types are in one family exactly where they compare.
pub proof fn law_families(a: Seq<char>, b: Seq<char>)
    ensures
        family_of(a) == family_of(b) <==> are_comparable(base_type(a), base_type(b)),
{
    lemma_names_differ();
}

/// Numbers, and nothing else, are in the families of numbers; the families of
/// numbers are numeric, and that of texts is text.
pub proof fn law_families_have_value_types(pg_type: Seq<char>)
    ensures
        value_type_of(pg_type) is Numeric <==> family_of(pg_type) == "integer"@ || family_of(pg_type) == "numeric"@,
        family_of(pg_type) == "text"@ ==> value_type_of(pg_type) is Text,
        value_type_of(pg_type) is Uuid <==> family_of(pg_type) == "uuid"@,
        value_type_of(pg_type) is Boolean <==> family_of(pg_type) == "boolean"@,
{
    lemma_names_differ();
}

/// A join key is an integer, a UUID, or a text that is not padded.
pub proof fn law_supported_join_keys(pg_type: Seq<char>)
    ensures
        is_text_stable(pg_type) <==> (family_of(pg_type) == "integer"@ || value_type_of(pg_type) is Uuid || (family_of(
            pg_type,
        ) == "text"@ && base_type(pg_type) != "character"@)),
{
    law_families_have_value_types(pg_type);
    lemma_names_differ();
}

/// A name without white space at its ends is the type's, whatever white space is
/// around it and whatever modifier follows.
pub proof fn law_modifiers_are_left_out(before: Seq<char>, name: Seq<char>, after: Seq<char>, modifier: Seq<char>)
    requires
        forall|i: int| 0 <= i < before.len() ==> is_white_space(#[trigger] before[i]),
        forall|i: int| 0 <= i < after.len() ==> is_white_space(#[trigger] after[i]),
        name.len() > 0,
        !is_white_space(name[0]),
        !is_white_space(name.last()),
        !name.contains('('),
    ensures
        base_type(before + name + after) == name,
        base_type(before + name + after + seq!['('] + modifier) == name,
{
    let plain = before + name + after;
    let all = plain + seq!['('] + modifier;
    assert forall|j: int| 0 <= j < plain.len() implies plain[j] != '(' by {
        if j < before.len() {
            assert(is_white_space(before[j]));
        } else if j < before.len() + name.len() {
            assert(name.contains(name[j - before.len()]));
        } else {
            assert(is_white_space(after[j - before.len() - name.len()]));
        }
    }
    lemma_find_is(plain, '(', plain.len() as int);
    lemma_find_is(all, '(', plain.len() as int);
    assert(plain.take(plain.len() as int) =~= plain);
    assert(all.take(plain.len() as int) =~= plain);
    law_trimming_leaves_the_middle(before, name, after);
}

} // verus!
