//! Column lineage: which calculated fields read a given column, directly or
//! through a relationship.

use super::ast::{Expr, Field, KeySpace, TransformDef};
use crate::lists::{lemma_filter_none, lemma_filter_step};
use crate::text::same;
use vstd::prelude::*;

verus! {

/// The table that a relationship leads to, of relationships given as declaring
/// table, name and related table. Where one is listed twice the last one counts.
pub open spec fn related_table(relationships: Seq<(String, String, String)>, from: Seq<char>, name: Seq<char>) -> Option<
    Seq<char>,
>
    decreases relationships.len(),
{
    if relationships.len() == 0 {
        None
    } else if relationships.last().0@ == from && relationships.last().1@ == name {
        Some(relationships.last().2@)
    } else {
        related_table(relationships.drop_last(), from, name)
    }
}

/// A column that fields may read.
pub struct Upstream {
    /// Its table.
    pub table: Seq<char>,
    /// The column.
    pub column: Seq<char>,
}

/// Whether an expression of a definition with the given source table reads a
/// column: by its name where the source table is its table, or through a
/// relationship that leads to its table.
pub open spec fn reads(
    expr: Expr,
    source: Seq<char>,
    upstream: Upstream,
    relationships: Seq<(String, String, String)>,
) -> bool
    decreases expr,
{
    match expr {
        Expr::Column(name) => source == upstream.table && name@ == upstream.column,
        Expr::RelationshipPath { rel, column } => column@ == upstream.column && related_table(
            relationships,
            source,
            rel@,
        ) == Some(upstream.table),
        Expr::BinaryOp { op, lhs, rhs } => reads(*lhs, source, upstream, relationships) || reads(
            *rhs,
            source,
            upstream,
            relationships,
        ),
        Expr::FunctionCall { name, args } => exists|i: int|
            0 <= i < args@.len() && reads(#[trigger] args@[i], source, upstream, relationships),
        Expr::NumberLiteral(_) => false,
        Expr::StringLiteral(_) => false,
    }
}

fn leads_to(relationships: &Vec<(String, String, String)>, from: &str, name: &str, to: &str) -> (r: bool)
    ensures
        r == (related_table(relationships@, from@, name@) == Some(to@)),
{
    let mut n: usize = relationships.len();
    assert(relationships@.take(n as int) =~= relationships@);
    while n > 0
        invariant
            n <= relationships@.len(),
            related_table(relationships@, from@, name@) == related_table(relationships@.take(n as int), from@, name@),
        decreases n,
    {
        assert(relationships@.take(n as int).drop_last() =~= relationships@.take(n - 1));
        let rel = &relationships[n - 1];
        if same(rel.0.as_str(), from) && same(rel.1.as_str(), name) {
            return same(rel.2.as_str(), to);
        }
        n = n - 1;
    }
    false
}

/// Whether an expression of a definition with the given source table reads a column.
pub fn expr_references_column(
    expr: &Expr,
    def_source: &str,
    upstream_table: &str,
    upstream_column: &str,
    rel_to_table: &Vec<(String, String, String)>,
) -> (r: bool)
    ensures
        r == reads(
            *expr,
            def_source@,
            Upstream { table: upstream_table@, column: upstream_column@ },
            rel_to_table@,
        ),
        r <==> exists|leaf: Expr| #[trigger]
            is_within(leaf, *expr) && is_the_column(
                leaf,
                def_source@,
                Upstream { table: upstream_table@, column: upstream_column@ },
                rel_to_table@,
            ),
    decreases expr,
{
    proof {
        law_an_expression_reads_what_is_within(
            *expr,
            def_source@,
            Upstream { table: upstream_table@, column: upstream_column@ },
            rel_to_table@,
        );
    }
    let ghost upstream = Upstream { table: upstream_table@, column: upstream_column@ };
    match expr {
        Expr::Column(name) => same(def_source, upstream_table) && same(name.as_str(), upstream_column),
        Expr::RelationshipPath { rel, column } => same(column.as_str(), upstream_column) && leads_to(
            rel_to_table,
            def_source,
            rel.as_str(),
            upstream_table,
        ),
        Expr::BinaryOp { op: _, lhs, rhs } => expr_references_column(
            lhs,
            def_source,
            upstream_table,
            upstream_column,
            rel_to_table,
        ) || expr_references_column(rhs, def_source, upstream_table, upstream_column, rel_to_table),
        Expr::FunctionCall { name: _, args } => {
            let mut i: usize = 0;
            while i < args.len()
                invariant
                    i <= args@.len(),
                    upstream == (Upstream { table: upstream_table@, column: upstream_column@ }),
                    *expr matches Expr::FunctionCall { args: a, .. } && a == args,
                    forall|j: int| 0 <= j < i ==> !reads(#[trigger] args@[j], def_source@, upstream, rel_to_table@),
                decreases args@.len() - i,
            {
                if expr_references_column(
                    &args[i],
                    def_source,
                    upstream_table,
                    upstream_column,
                    rel_to_table,
                ) {
                    proof {
                        assert(reads(args@[i as int], def_source@, upstream, rel_to_table@));
                        law_an_expression_reads_what_is_within(*expr, def_source@, upstream, rel_to_table@);
                    }
                    return true;
                }
                i = i + 1;
            }
            false
        },
        Expr::NumberLiteral(_) | Expr::StringLiteral(_) => false,
    }
}

/// A stored definition as lineage sees it: its target, and what it says.
#[derive(Debug)]
pub struct TargetDefinition {
    /// The target table, without its schema.
    pub target: String,
    /// What the definition says.
    pub def: TransformDef,
}

/// The fields of one definition, up to the `n`-th, that read a column.
pub open spec fn reading_fields(
    definition: TargetDefinition,
    upstream: Upstream,
    relationships: Seq<(String, String, String)>,
    n: int,
) -> Seq<(Seq<char>, Seq<char>)>
    decreases n,
{
    if n <= 0 {
        seq![]
    } else {
        let before = reading_fields(definition, upstream, relationships, n - 1);
        let field = definition.def.fields@[n - 1];
        if reads(field.expr, definition.def.source@, upstream, relationships) {
            before.push((definition.target@, field.name@))
        } else {
            before
        }
    }
}

/// The fields of all one-to-one definitions that read a column, as target and field.
pub open spec fn dependents(
    definitions: Seq<TargetDefinition>,
    upstream: Upstream,
    relationships: Seq<(String, String, String)>,
) -> Seq<(Seq<char>, Seq<char>)>
    decreases definitions.len(),
{
    if definitions.len() == 0 {
        seq![]
    } else {
        let before = dependents(definitions.drop_last(), upstream, relationships);
        let last = definitions.last();
        if last.def.key_space is OneToOne {
            before + reading_fields(last, upstream, relationships, last.def.fields@.len() as int)
        } else {
            before
        }
    }
}

/// The texts of pairs.
pub open spec fn pair_texts(pairs: Seq<(String, String)>) -> Seq<(Seq<char>, Seq<char>)> {
    pairs.map_values(|p: (String, String)| (p.0@, p.1@))
}

/// Target and name of each calculated field that reads a column: of the stored
/// definitions, only one-to-one ones, in order.
pub fn column_dependents(
    definitions: &Vec<TargetDefinition>,
    rel_to_table: &Vec<(String, String, String)>,
    upstream_table: &str,
    upstream_column: &str,
) -> (r: Vec<(String, String)>)
    ensures
        pair_texts(r@) == dependents(
            definitions@,
            Upstream { table: upstream_table@, column: upstream_column@ },
            rel_to_table@,
        ),
{
    let mut deps: Vec<(String, String)> = Vec::new();
    let ghost upstream = Upstream { table: upstream_table@, column: upstream_column@ };
    assert(pair_texts(deps@) =~= seq![]);
    for i in 0..definitions.len()
        invariant
            upstream == (Upstream { table: upstream_table@, column: upstream_column@ }),
            pair_texts(deps@) == dependents(definitions@.take(i as int), upstream, rel_to_table@),
    {
        let definition = &definitions[i];
        assert(definitions@.take(i + 1).drop_last() =~= definitions@.take(i as int));
        let one_to_one = match definition.def.key_space {
            KeySpace::OneToOne => true,
            KeySpace::Aggregate { .. } => false,
        };
        if one_to_one {
            let ghost before = pair_texts(deps@);
            assert(before + reading_fields(*definition, upstream, rel_to_table@, 0) =~= before);
            for n in 0..definition.def.fields.len()
                invariant
                    upstream == (Upstream { table: upstream_table@, column: upstream_column@ }),
                    pair_texts(deps@) == before + reading_fields(*definition, upstream, rel_to_table@, n as int),
            {
                let field = &definition.def.fields[n];
                let ghost so_far = pair_texts(deps@);
                if expr_references_column(
                    &field.expr,
                    definition.def.source.as_str(),
                    upstream_table,
                    upstream_column,
                    rel_to_table,
                ) {
                    deps.push((definition.target.clone(), field.name.clone()));
                    assert(pair_texts(deps@) =~= so_far.push((definition.target@, field.name@)));
                }
                assert(pair_texts(deps@) =~= before + reading_fields(*definition, upstream, rel_to_table@, n + 1));
            }
        }
    }
    assert(definitions@.take(definitions@.len() as int) =~= definitions@);
    deps
}

/// A dependent field belongs to a one-to-one definition and reads the column;
/// a field that does not read it is never listed.
pub proof fn law_dependents_read_the_column(
    definitions: Seq<TargetDefinition>,
    upstream: Upstream,
    relationships: Seq<(String, String, String)>,
    target: Seq<char>,
    name: Seq<char>,
)
    ensures
        dependents(definitions, upstream, relationships).contains((target, name)) <==> exists|d: int, f: int|
            0 <= d < definitions.len() && 0 <= f < definitions[d].def.fields@.len() && definitions[d].target@ == target
                && definitions[d].def.key_space is OneToOne && (#[trigger] definitions[d].def.fields@[f]).name@ == name
                && reads(definitions[d].def.fields@[f].expr, definitions[d].def.source@, upstream, relationships),
    decreases definitions.len(),
{
    let all = dependents(definitions, upstream, relationships);
    if definitions.len() > 0 {
        let front = definitions.drop_last();
        let last = definitions.last();
        law_dependents_read_the_column(front, upstream, relationships, target, name);
        let before = dependents(front, upstream, relationships);
        let n = last.def.fields@.len() as int;
        lemma_reading_fields(last, upstream, relationships, n, target, name);
        let own = reading_fields(last, upstream, relationships, n);
        if all.contains((target, name)) {
            let k = choose|k: int| 0 <= k < all.len() && all[k] == (target, name);
            if k < before.len() {
                assert(before[k] == (target, name));
                assert(before.contains((target, name)));
                let (d, f) = choose|d: int, f: int|
                    0 <= d < front.len() && 0 <= f < front[d].def.fields@.len() && front[d].target@ == target
                        && front[d].def.key_space is OneToOne && (#[trigger] front[d].def.fields@[f]).name@ == name
                        && reads(front[d].def.fields@[f].expr, front[d].def.source@, upstream, relationships);
                assert(definitions[d].def.fields@[f].name@ == name);
            } else {
                assert(own[k - before.len()] == (target, name));
                assert(own.contains((target, name)));
                let f = choose|f: int|
                    0 <= f < n && (#[trigger] last.def.fields@[f]).name@ == name && reads(
                        last.def.fields@[f].expr,
                        last.def.source@,
                        upstream,
                        relationships,
                    );
                assert(definitions[definitions.len() - 1].def.fields@[f].name@ == name);
            }
        }
        if exists|d: int, f: int|
            0 <= d < definitions.len() && 0 <= f < definitions[d].def.fields@.len() && definitions[d].target@ == target
                && definitions[d].def.key_space is OneToOne && (#[trigger] definitions[d].def.fields@[f]).name@ == name
                && reads(definitions[d].def.fields@[f].expr, definitions[d].def.source@, upstream, relationships) {
            let (d, f) = choose|d: int, f: int|
                0 <= d < definitions.len() && 0 <= f < definitions[d].def.fields@.len() && definitions[d].target@
                    == target && definitions[d].def.key_space is OneToOne && (#[trigger] definitions[d].def.fields@[f]).name@
                    == name && reads(
                    definitions[d].def.fields@[f].expr,
                    definitions[d].def.source@,
                    upstream,
                    relationships,
                );
            if d < front.len() {
                assert(front[d].def.fields@[f].name@ == name);
                assert(before.contains((target, name)));
                let k = choose|k: int| 0 <= k < before.len() && before[k] == (target, name);
                assert(all[k] == (target, name));
            } else {
                assert(own.contains((target, name)));
                let k = choose|k: int| 0 <= k < own.len() && own[k] == (target, name);
                assert(all[before.len() + k] == (target, name));
            }
        }
    }
}

proof fn lemma_reading_fields(
    definition: TargetDefinition,
    upstream: Upstream,
    relationships: Seq<(String, String, String)>,
    n: int,
    target: Seq<char>,
    name: Seq<char>,
)
    requires
        0 <= n <= definition.def.fields@.len(),
    ensures
        reading_fields(definition, upstream, relationships, n).contains((target, name)) <==> definition.target@
            == target && exists|f: int|
            0 <= f < n && (#[trigger] definition.def.fields@[f]).name@ == name && reads(
                definition.def.fields@[f].expr,
                definition.def.source@,
                upstream,
                relationships,
            ),
    decreases n,
{
    if n > 0 {
        lemma_reading_fields(definition, upstream, relationships, n - 1, target, name);
        let before = reading_fields(definition, upstream, relationships, n - 1);
        let all = reading_fields(definition, upstream, relationships, n);
        let field = definition.def.fields@[n - 1];
        if before.contains((target, name)) {
            let k = choose|k: int| 0 <= k < before.len() && before[k] == (target, name);
            assert(all[k] == (target, name));
        }
        if all.contains((target, name)) {
            let k = choose|k: int| 0 <= k < all.len() && all[k] == (target, name);
            if k < before.len() {
                assert(before[k] == (target, name));
            }
        }
        if reads(field.expr, definition.def.source@, upstream, relationships) {
            assert(all[before.len() as int] == (definition.target@, field.name@));
        }
    }
}

/// Whether an expression is the other one, or stands anywhere inside it: as an
/// operand of an operator or an argument of a call, at any depth.
pub open spec fn is_within(part: Expr, whole: Expr) -> bool
    decreases whole,
{
    part == whole || match whole {
        Expr::BinaryOp { lhs, rhs, .. } => is_within(part, *lhs) || is_within(part, *rhs),
        Expr::FunctionCall { args, .. } => exists|i: int| 0 <= i < args@.len() && is_within(part, #[trigger] args@[i]),
        _ => false,
    }
}

/// Whether an expression is the upstream column itself: its name, in a definition
/// that reads its table, or a path through a relationship that leads there.
pub open spec fn is_the_column(
    leaf: Expr,
    source: Seq<char>,
    upstream: Upstream,
    relationships: Seq<(String, String, String)>,
) -> bool {
    ||| leaf matches Expr::Column(name) && name@ == upstream.column && source == upstream.table
    ||| leaf matches Expr::RelationshipPath { rel, column } && column@ == upstream.column && leads_there(
        relationships,
        source,
        rel@,
        upstream.table,
    )
}

/// Whether the last listed relationship of the name, declared by `from`, leads to
/// a table.
pub open spec fn leads_there(
    relationships: Seq<(String, String, String)>,
    from: Seq<char>,
    name: Seq<char>,
    to: Seq<char>,
) -> bool {
    exists|i: int|
        0 <= i < relationships.len() && (#[trigger] relationships[i]).0@ == from && relationships[i].1@ == name
            && relationships[i].2@ == to && forall|j: int|
            i < j < relationships.len() ==> (#[trigger] relationships[j]).0@ != from || relationships[j].1@ != name
}

/// The last listed relationship of a name counts.
pub proof fn law_the_last_relationship_counts(
    relationships: Seq<(String, String, String)>,
    from: Seq<char>,
    name: Seq<char>,
    to: Seq<char>,
)
    ensures
        related_table(relationships, from, name) == Some(to) <==> leads_there(relationships, from, name, to),
    decreases relationships.len(),
{
    if relationships.len() > 0 {
        let front = relationships.drop_last();
        let n = relationships.len() - 1;
        let last = relationships[n];
        law_the_last_relationship_counts(front, from, name, to);
        if last.0@ == from && last.1@ == name {
            if last.2@ == to {
                assert(relationships[n].2@ == to);
            }
        } else {
            if leads_there(front, from, name, to) {
                let i = choose|i: int|
                    0 <= i < front.len() && (#[trigger] front[i]).0@ == from && front[i].1@ == name && front[i].2@ == to
                        && forall|j: int|
                        i < j < front.len() ==> (#[trigger] front[j]).0@ != from || front[j].1@ != name;
                assert(relationships[i] == front[i]);
                assert forall|j: int| i < j < relationships.len() implies (#[trigger] relationships[j]).0@ != from
                    || relationships[j].1@ != name by {
                    if j < n {
                        assert(front[j] == relationships[j]);
                    }
                }
            }
            if leads_there(relationships, from, name, to) {
                let i = choose|i: int|
                    0 <= i < relationships.len() && (#[trigger] relationships[i]).0@ == from && relationships[i].1@
                        == name && relationships[i].2@ == to && forall|j: int|
                        i < j < relationships.len() ==> (#[trigger] relationships[j]).0@ != from || relationships[j].1@
                            != name;
                assert(i < n);
                assert(front[i] == relationships[i]);
                assert forall|j: int| i < j < front.len() implies (#[trigger] front[j]).0@ != from || front[j].1@
                    != name by {
                    assert(front[j] == relationships[j]);
                }
            }
        }
    }
}

/// An expression reads a column exactly where the column is somewhere within it.
pub proof fn law_an_expression_reads_what_is_within(
    expr: Expr,
    source: Seq<char>,
    upstream: Upstream,
    relationships: Seq<(String, String, String)>,
)
    ensures
        reads(expr, source, upstream, relationships) <==> exists|leaf: Expr| #[trigger]
            is_within(leaf, expr) && is_the_column(leaf, source, upstream, relationships),
    decreases expr,
{
    assert(is_within(expr, expr));
    if exists|leaf: Expr| #[trigger] is_within(leaf, expr) && is_the_column(leaf, source, upstream, relationships) {
        let leaf = choose|leaf: Expr| #[trigger]
            is_within(leaf, expr) && is_the_column(leaf, source, upstream, relationships);
        match expr {
            Expr::Column(_) => {},
            Expr::RelationshipPath { rel, .. } => {
                law_the_last_relationship_counts(relationships, source, rel@, upstream.table);
            },
            Expr::BinaryOp { lhs, rhs, .. } => {
                law_an_expression_reads_what_is_within(*lhs, source, upstream, relationships);
                law_an_expression_reads_what_is_within(*rhs, source, upstream, relationships);
                assert(is_within(leaf, *lhs) || is_within(leaf, *rhs));
            },
            Expr::FunctionCall { args, .. } => {
                let i = choose|i: int| 0 <= i < args@.len() && is_within(leaf, #[trigger] args@[i]);
                law_an_expression_reads_what_is_within(args@[i], source, upstream, relationships);
                assert(reads(args@[i], source, upstream, relationships));
            },
            Expr::NumberLiteral(_) => {},
            Expr::StringLiteral(_) => {},
        }
    }
    if reads(expr, source, upstream, relationships) {
        match expr {
            Expr::Column(_) => {
                assert(is_the_column(expr, source, upstream, relationships));
            },
            Expr::RelationshipPath { rel, .. } => {
                law_the_last_relationship_counts(relationships, source, rel@, upstream.table);
                assert(is_the_column(expr, source, upstream, relationships));
            },
            Expr::BinaryOp { lhs, rhs, .. } => {
                law_an_expression_reads_what_is_within(*lhs, source, upstream, relationships);
                law_an_expression_reads_what_is_within(*rhs, source, upstream, relationships);
                let leaf = choose|leaf: Expr|
                    (is_within(leaf, *lhs) || is_within(leaf, *rhs)) && is_the_column(
                        leaf,
                        source,
                        upstream,
                        relationships,
                    );
                assert(is_within(leaf, expr));
            },
            Expr::FunctionCall { args, .. } => {
                let i = choose|i: int|
                    0 <= i < args@.len() && reads(#[trigger] args@[i], source, upstream, relationships);
                law_an_expression_reads_what_is_within(args@[i], source, upstream, relationships);
                let leaf = choose|leaf: Expr| #[trigger]
                    is_within(leaf, args@[i]) && is_the_column(leaf, source, upstream, relationships);
                assert(is_within(leaf, expr));
            },
            Expr::NumberLiteral(_) => {},
            Expr::StringLiteral(_) => {},
        }
    }
}

/// Dependents are found definition by definition.
pub proof fn law_dependents_follow_the_definitions(
    first: Seq<TargetDefinition>,
    second: Seq<TargetDefinition>,
    upstream: Upstream,
    relationships: Seq<(String, String, String)>,
)
    ensures
        dependents(first + second, upstream, relationships) == dependents(first, upstream, relationships) + dependents(
            second,
            upstream,
            relationships,
        ),
    decreases second.len(),
{
    let all = first + second;
    if second.len() == 0 {
        assert(all =~= first);
        assert(dependents(second, upstream, relationships) =~= seq![]);
        assert(dependents(first, upstream, relationships) + seq![] =~= dependents(first, upstream, relationships));
    } else {
        law_dependents_follow_the_definitions(first, second.drop_last(), upstream, relationships);
        assert(all.drop_last() =~= first + second.drop_last());
        assert(all.last() == second.last());
        assert(dependents(all, upstream, relationships) =~= dependents(first, upstream, relationships) + dependents(
            second,
            upstream,
            relationships,
        ));
    }
}

/// The dependents of one definition are those of its fields, in order, that read
/// the column; an aggregate has none.
pub proof fn law_dependents_follow_the_fields(
    definition: TargetDefinition,
    upstream: Upstream,
    relationships: Seq<(String, String, String)>,
)
    ensures
        dependents(seq![definition], upstream, relationships) == match definition.def.key_space {
            KeySpace::OneToOne => definition.def.fields@.filter(
                |f: Field| reads(f.expr, definition.def.source@, upstream, relationships),
            ).map_values(|f: Field| (definition.target@, f.name@)),
            KeySpace::Aggregate { .. } => seq![],
        },
{
    let one = seq![definition];
    let none: Seq<TargetDefinition> = seq![];
    assert(one.drop_last() =~= none);
    assert(dependents(none, upstream, relationships) =~= seq![]);
    if definition.def.key_space is OneToOne {
        let fields = definition.def.fields@;
        let keep = |f: Field| reads(f.expr, definition.def.source@, upstream, relationships);
        let named = |f: Field| (definition.target@, f.name@);
        lemma_reading_fields_filtered(definition, upstream, relationships, fields.len() as int);
        assert(fields.take(fields.len() as int) =~= fields);
        assert(dependents(one, upstream, relationships) =~= fields.filter(keep).map_values(named));
    }
}

proof fn lemma_reading_fields_filtered(
    definition: TargetDefinition,
    upstream: Upstream,
    relationships: Seq<(String, String, String)>,
    n: int,
)
    requires
        0 <= n <= definition.def.fields@.len(),
    ensures
        reading_fields(definition, upstream, relationships, n) == definition.def.fields@.take(n).filter(
            |f: Field| reads(f.expr, definition.def.source@, upstream, relationships),
        ).map_values(|f: Field| (definition.target@, f.name@)),
    decreases n,
{
    let fields = definition.def.fields@;
    let keep = |f: Field| reads(f.expr, definition.def.source@, upstream, relationships);
    let named = |f: Field| (definition.target@, f.name@);
    if n == 0 {
        lemma_filter_none(fields, keep);
        assert(fields.take(0).filter(keep).map_values(named) =~= seq![]);
    } else {
        lemma_reading_fields_filtered(definition, upstream, relationships, n - 1);
        lemma_filter_step(fields, n - 1, keep);
        let before = fields.take(n - 1).filter(keep);
        assert(before.push(fields[n - 1]).map_values(named) =~= before.map_values(named).push(named(fields[n - 1])));
    }
}

} // verus!
