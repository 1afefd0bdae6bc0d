//! Streaming copy commands and import statements.
//!
//! `build_queries` turns the dependency order into one copy command per
//! table, each filtered to the rows referenced by already-scheduled
//! tables; `ImportCmd` produces the statements that stage, merge and
//! repair one exported file inside a single transaction.

use vstd::prelude::*;
use vstd::string::StringExecFns;

use crate::text::{contains_str, str_eq};

verus! {

/// One foreign-key relationship: `source_table.source_column` references
/// `dest_table.dest_column`.
pub struct Relationship {
    pub source_table: String,
    pub dest_table: String,
    pub source_column: String,
    pub dest_column: String,
}

/// The mathematical value of a [`Relationship`].
pub ghost struct RelModel {
    pub source_table: Seq<char>,
    pub dest_table: Seq<char>,
    pub source_column: Seq<char>,
    pub dest_column: Seq<char>,
}

impl View for Relationship {
    type V = RelModel;

    open spec fn view(&self) -> RelModel {
        RelModel {
            source_table: self.source_table@,
            dest_table: self.dest_table@,
            source_column: self.source_column@,
            dest_column: self.dest_column@,
        }
    }
}

/// The models of a sequence of relationships.
pub open spec fn rel_models(rels: Seq<Relationship>) -> Seq<RelModel> {
    rels.map_values(|r: Relationship| r@)
}

/// Builds a relationship from the four catalog columns, dropping the row
/// when any component is absent.
pub fn relationship_from_parts(
    source_table: Option<String>,
    dest_table: Option<String>,
    source_column: Option<String>,
    dest_column: Option<String>,
) -> (r: Option<Relationship>)
    ensures
        r is Some <==> (source_table is Some && dest_table is Some && source_column is Some
            && dest_column is Some),
        r is Some ==> {
            &&& r->0@.source_table == source_table->0@
            &&& r->0@.dest_table == dest_table->0@
            &&& r->0@.source_column == source_column->0@
            &&& r->0@.dest_column == dest_column->0@
        },
{
    match (source_table, dest_table, source_column, dest_column) {
        (Some(st), Some(dt), Some(sc), Some(dc)) => Some(Relationship {
            source_table: st,
            dest_table: dt,
            source_column: sc,
            dest_column: dc,
        }),
        _ => None,
    }
}

/// One streaming copy-out unit: a table and its filter clause (empty for
/// a full-table export).
pub struct CopyCmd {
    pub table: String,
    pub clauses: String,
}

/// The `IN (SELECT DISTINCT ..)` membership test contributed by one
/// relationship to its referenced table's filter.
pub open spec fn in_subclause(r: RelModel) -> Seq<char> {
    r.dest_table + "."@ + r.dest_column + " IN (SELECT DISTINCT "@ + r.source_column + " FROM "@
        + r.source_table + ")"@
}

/// Whether relationship `r` contributes to the filter of table `t`: it
/// must reference `t`, and its referencing table must itself be
/// scheduled for export.
pub open spec fn rel_matches(r: RelModel, deps: Seq<Seq<char>>, t: Seq<char>) -> bool {
    r.dest_table == t && deps.contains(r.source_table)
}

/// The relationships among `rels`, in order, that contribute to the
/// filter of table `t`.
pub open spec fn matching_rels(rels: Seq<RelModel>, deps: Seq<Seq<char>>, t: Seq<char>) -> Seq<
    RelModel,
>
    decreases rels.len(),
{
    if rels.len() == 0 {
        Seq::empty()
    } else {
        let init = matching_rels(rels.drop_last(), deps, t);
        if rel_matches(rels.last(), deps, t) {
            init.push(rels.last())
        } else {
            init
        }
    }
}

/// The filter clause built from the matching relationships: empty when
/// none match, otherwise their membership tests OR-combined under one
/// `WHERE`.
pub open spec fn clause_of(ms: Seq<RelModel>) -> Seq<char>
    decreases ms.len(),
{
    if ms.len() == 0 {
        Seq::empty()
    } else if ms.len() == 1 {
        "WHERE "@ + in_subclause(ms[0])
    } else {
        clause_of(ms.drop_last()) + " OR "@ + in_subclause(ms.last())
    }
}

/// The filter clause of table `t` given the full relationship list and
/// the dependency-ordered set.
pub open spec fn spec_filter_clause(
    rels: Seq<RelModel>,
    deps: Seq<Seq<char>>,
    t: Seq<char>,
) -> Seq<char> {
    clause_of(matching_rels(rels, deps, t))
}

fn push_subclause(s: &mut String, rel: &Relationship)
    ensures
        final(s)@ == old(s)@ + in_subclause(rel@),
{
    s.append(rel.dest_table.as_str());
    s.append(".");
    s.append(rel.dest_column.as_str());
    s.append(" IN (SELECT DISTINCT ");
    s.append(rel.source_column.as_str());
    s.append(" FROM ");
    s.append(rel.source_table.as_str());
    s.append(")");
    proof {
        assert(s@ =~= old(s)@ + in_subclause(rel@));
    }
}

/// Builds the filter clause of table `table`, OR-combining one
/// membership test per relationship that references it from a scheduled
/// table.
pub fn filter_clause(rels: &Vec<Relationship>, deps: &Vec<String>, table: &str) -> (s: String)
    ensures
        s@ == spec_filter_clause(rel_models(rels@), deps.deep_view(), table@),
        s@.len() == 0 <==> matching_rels(rel_models(rels@), deps.deep_view(), table@).len() == 0,
{
    let mut s = String::new();
    let mut any = false;
    let mut j: usize = 0;
    while j < rels.len()
        invariant
            j <= rels@.len(),
            any <==> matching_rels(rel_models(rels@).take(j as int), deps.deep_view(), table@).len()
                > 0,
            s@ == clause_of(
                matching_rels(rel_models(rels@).take(j as int), deps.deep_view(), table@),
            ),
        decreases rels@.len() - j,
    {
        let ghost prev = matching_rels(rel_models(rels@).take(j as int), deps.deep_view(), table@);
        proof {
            assert(rel_models(rels@).take(j + 1).drop_last() =~= rel_models(rels@).take(j as int));
            assert(rel_models(rels@).take(j + 1).last() == rels@[j as int]@);
        }
        let rel = &rels[j];
        if str_eq(rel.dest_table.as_str(), table) && contains_str(deps, rel.source_table.as_str()) {
            assert(rel_matches(rels@[j as int]@, deps.deep_view(), table@));
            if !any {
                s.append("WHERE ");
                push_subclause(&mut s, rel);
                any = true;
                proof {
                    assert(prev.push(rels@[j as int]@)[0] == rels@[j as int]@);
                    assert(s@ =~= clause_of(prev.push(rels@[j as int]@)));
                }
            } else {
                s.append(" OR ");
                push_subclause(&mut s, rel);
                proof {
                    assert(prev.push(rels@[j as int]@).drop_last() =~= prev);
                    assert(s@ =~= clause_of(prev.push(rels@[j as int]@)));
                }
            }
        } else {
            assert(!rel_matches(rels@[j as int]@, deps.deep_view(), table@));
        }
        j += 1;
    }
    proof {
        assert(rel_models(rels@).take(rels@.len() as int) =~= rel_models(rels@));
    }
    proof {
        clause_of_empty_iff(matching_rels(rel_models(rels@), deps.deep_view(), table@));
    }
    s
}

/// A clause is empty exactly when no relationship matched.
proof fn clause_of_empty_iff(ms: Seq<RelModel>)
    ensures
        clause_of(ms).len() == 0 <==> ms.len() == 0,
    decreases ms.len(),
{
    if ms.len() > 1 {
        clause_of_empty_iff(ms.drop_last());
    } else if ms.len() == 1 {
        reveal_strlit("WHERE ");
    }
}

impl CopyCmd {
    /// A copy command for `table` scoped by `clauses`.
    pub fn new(table: &str, clauses: &str) -> (r: CopyCmd)
        ensures
            r.table@ == table@,
            r.clauses@ == clauses@,
    {
        CopyCmd { table: table.to_owned(), clauses: clauses.to_owned() }
    }

    /// The streaming copy-out statement for this command.
    pub fn build_query(&self) -> (r: String)
        ensures
            r@ == "COPY (SELECT * FROM "@ + self.table@ + " "@ + self.clauses@
                + ") TO STDOUT CSV HEADER"@,
    {
        let mut s = String::new();
        s.append("COPY (SELECT * FROM ");
        s.append(self.table.as_str());
        s.append(" ");
        s.append(self.clauses.as_str());
        s.append(") TO STDOUT CSV HEADER");
        proof {
            assert(s@ =~= "COPY (SELECT * FROM "@ + self.table@ + " "@ + self.clauses@
                + ") TO STDOUT CSV HEADER"@);
        }
        s
    }
}

/// One copy command per table of the dependency order, each scoped to
/// the rows referenced by already-scheduled tables; when the target
/// table itself ends up filtered, one extra unfiltered command for it is
/// appended so that the root is always fully present.
pub fn build_queries(
    target_table: &str,
    relationships: &Vec<Relationship>,
    sorted_dependencies: &Vec<String>,
) -> (r: Vec<CopyCmd>)
    ensures
        r@.len() == sorted_dependencies@.len() || r@.len() == sorted_dependencies@.len() + 1,
        forall|i: int|
            0 <= i < sorted_dependencies@.len() ==> (#[trigger] r@[i]).table@
                == sorted_dependencies.deep_view()[i] && r@[i].clauses@ == spec_filter_clause(
                rel_models(relationships@),
                sorted_dependencies.deep_view(),
                sorted_dependencies.deep_view()[i],
            ),
        r@.len() == sorted_dependencies@.len() + 1 <==> exists|i: int|
            0 <= i < sorted_dependencies@.len() && #[trigger] sorted_dependencies.deep_view()[i]
                == target_table@ && spec_filter_clause(
                rel_models(relationships@),
                sorted_dependencies.deep_view(),
                sorted_dependencies.deep_view()[i],
            ).len() > 0,
        r@.len() == sorted_dependencies@.len() + 1 ==> r@[sorted_dependencies@.len() as int].table@
            == target_table@ && r@[sorted_dependencies@.len() as int].clauses@.len() == 0,
{
    let mut r: Vec<CopyCmd> = Vec::new();
    let mut needs_fallback = false;
    let mut i: usize = 0;
    while i < sorted_dependencies.len()
        invariant
            i <= sorted_dependencies@.len(),
            r@.len() == i,
            forall|k: int|
                0 <= k < i ==> (#[trigger] r@[k]).table@ == sorted_dependencies.deep_view()[k]
                    && r@[k].clauses@ == spec_filter_clause(
                    rel_models(relationships@),
                    sorted_dependencies.deep_view(),
                    sorted_dependencies.deep_view()[k],
                ),
            needs_fallback <==> exists|k: int|
                0 <= k < i && #[trigger] sorted_dependencies.deep_view()[k] == target_table@
                    && spec_filter_clause(
                    rel_models(relationships@),
                    sorted_dependencies.deep_view(),
                    sorted_dependencies.deep_view()[k],
                ).len() > 0,
        decreases sorted_dependencies@.len() - i,
    {
        let dep = &sorted_dependencies[i];
        let clauses = filter_clause(relationships, sorted_dependencies, dep.as_str());
        if str_eq(dep.as_str(), target_table) && !clauses.as_str().is_empty() {
            needs_fallback = true;
            assert(sorted_dependencies.deep_view()[i as int] == target_table@);
        }
        r.push(CopyCmd { table: dep.clone(), clauses });
        i += 1;
    }
    if needs_fallback {
        r.push(CopyCmd::new(target_table, ""));
        proof {
            reveal_strlit("");
        }
    }
    r
}

/// The statements that import one exported file into its table: stage
/// into a transaction-scoped temporary table, merge while skipping
/// conflicting rows, and repair the table's sequences.
pub struct ImportCmd {
    pub table: String,
    temp_table: String,
    header: String,
}

/// The mathematical value of an [`ImportCmd`].
pub ghost struct ImportModel {
    pub table: Seq<char>,
    pub temp_table: Seq<char>,
    pub header: Seq<char>,
}

impl View for ImportCmd {
    type V = ImportModel;

    closed spec fn view(&self) -> ImportModel {
        ImportModel { table: self.table@, temp_table: self.temp_table@, header: self.header@ }
    }
}

impl ImportCmd {
    /// An import command for `table` whose file carries the column list
    /// `header`; the staging table is named after the target table.
    pub fn new(table: &str, header: &str) -> (r: ImportCmd)
        ensures
            r@.table == table@,
            r@.temp_table == table@ + "_temp"@,
            r@.header == header@,
    {
        let mut temp_table = table.to_owned();
        temp_table.append("_temp");
        ImportCmd { table: table.to_owned(), temp_table, header: header.to_owned() }
    }

    /// The statement that creates the staging table with the target
    /// table's column defaults, dropped automatically on commit.
    pub fn create_temp_table_sql(&self) -> (r: String)
        ensures
            r@ == "CREATE TEMP TABLE "@ + self@.temp_table + " (LIKE "@ + self@.table
                + " INCLUDING DEFAULTS) ON COMMIT DROP"@,
    {
        let mut s = String::new();
        s.append("CREATE TEMP TABLE ");
        s.append(self.temp_table.as_str());
        s.append(" (LIKE ");
        s.append(self.table.as_str());
        s.append(" INCLUDING DEFAULTS) ON COMMIT DROP");
        proof {
            assert(s@ =~= "CREATE TEMP TABLE "@ + self@.temp_table + " (LIKE "@ + self@.table
                + " INCLUDING DEFAULTS) ON COMMIT DROP"@);
        }
        s
    }

    /// The statement that bulk-loads the file's remaining lines into the
    /// staging table, keyed by the file's column header.
    pub fn copy_csv_sql(&self) -> (r: String)
        ensures
            r@ == "COPY "@ + self@.temp_table + "("@ + self@.header + ") FROM STDIN WITH CSV"@,
    {
        let mut s = String::new();
        s.append("COPY ");
        s.append(self.temp_table.as_str());
        s.append("(");
        s.append(self.header.as_str());
        s.append(") FROM STDIN WITH CSV");
        proof {
            assert(s@ =~= "COPY "@ + self@.temp_table + "("@ + self@.header
                + ") FROM STDIN WITH CSV"@);
        }
        s
    }

    /// The statement that merges staged rows into the target table by
    /// column list, skipping rows that violate a uniqueness conflict, so
    /// that re-importing the same file is idempotent.
    pub fn insert_sql(&self) -> (r: String)
        ensures
            r@ == "INSERT INTO "@ + self@.table + "("@ + self@.header + ") SELECT "@ + self@.header
                + " FROM "@ + self@.temp_table + " ON CONFLICT DO NOTHING"@,
    {
        let mut s = String::new();
        s.append("INSERT INTO ");
        s.append(self.table.as_str());
        s.append("(");
        s.append(self.header.as_str());
        s.append(") SELECT ");
        s.append(self.header.as_str());
        s.append(" FROM ");
        s.append(self.temp_table.as_str());
        s.append(" ON CONFLICT DO NOTHING");
        proof {
            assert(s@ =~= "INSERT INTO "@ + self@.table + "("@ + self@.header + ") SELECT "@
                + self@.header + " FROM "@ + self@.temp_table + " ON CONFLICT DO NOTHING"@);
        }
        s
    }

    /// The statement that resets one sequence owned by a column of the
    /// target table to the column's current maximum, so that the
    /// sequence's next value exceeds every imported key.
    pub fn update_sequence_sql(&self, sequence_name: &str, column_name: &str) -> (r: String)
        ensures
            r@ == "SELECT setval('"@ + sequence_name@ + "', (SELECT MAX("@ + column_name@
                + ") FROM "@ + self@.table + "))"@,
    {
        let mut s = String::new();
        s.append("SELECT setval('");
        s.append(sequence_name);
        s.append("', (SELECT MAX(");
        s.append(column_name);
        s.append(") FROM ");
        s.append(self.table.as_str());
        s.append("))");
        proof {
            assert(s@ =~= "SELECT setval('"@ + sequence_name@ + "', (SELECT MAX("@ + column_name@
                + ") FROM "@ + self@.table + "))"@);
        }
        s
    }
}

} // verus!
