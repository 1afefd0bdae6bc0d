//! Run configuration: the target table, the output directory, the
//! database location, the declared many-to-many join tables, and the
//! per-table column transforms.

use vstd::prelude::*;

use crate::text::str_eq;

verus! {

/// The kind of transform configured for one column.
#[derive(Clone, Copy, PartialEq, Eq, Structural, Debug)]
pub enum TransformKind {
    ClearField,
    FirstNameEn,
    LastNameEn,
    UsernameEn,
    EmailEn,
    DjangoGarbagePassword,
}

/// Declares that table `name` is a pure join table whose primary side is
/// `source`; used only to redirect the direction of one graph edge.
#[derive(Clone)]
pub struct M2MTable {
    pub name: String,
    pub source: String,
}

/// The mathematical value of an [`M2MTable`].
pub ghost struct M2MModel {
    pub name: Seq<char>,
    pub source: Seq<char>,
}

impl View for M2MTable {
    type V = M2MModel;

    open spec fn view(&self) -> M2MModel {
        M2MModel { name: self.name@, source: self.source@ }
    }
}

/// The models of a sequence of many-to-many declarations.
pub open spec fn m2m_models(ts: Seq<M2MTable>) -> Seq<M2MModel> {
    ts.map_values(|t: M2MTable| t@)
}

/// One configured transform: the named column's values are replaced by
/// the transform's output in every exported row of the table.
pub struct ColumnTransform {
    pub column: String,
    pub kind: TransformKind,
}

/// All transforms configured for one table, keyed by column name.
pub struct TableTransforms {
    pub table: String,
    pub columns: Vec<ColumnTransform>,
}

/// A whole run's configuration.
pub struct Config {
    pub target_table: String,
    pub target_dir: String,
    pub database_url: String,
    pub m2m_tables: Option<Vec<M2MTable>>,
    pub transforms: Option<Vec<TableTransforms>>,
}

/// The column transforms of the first registry entry for `table`, if
/// the registry holds one.
pub open spec fn spec_transforms_for(ts: Seq<TableTransforms>, table: Seq<char>) -> Option<
    Seq<ColumnTransform>,
>
    decreases ts.len(),
{
    if ts.len() == 0 {
        None
    } else if ts[0].table@ == table {
        Some(ts[0].columns@)
    } else {
        spec_transforms_for(ts.drop_first(), table)
    }
}

proof fn lemma_transforms_for_found(ts: Seq<TableTransforms>, table: Seq<char>, i: int)
    requires
        0 <= i < ts.len(),
        ts[i].table@ == table,
        forall|j: int| 0 <= j < i ==> (#[trigger] ts[j]).table@ != table,
    ensures
        spec_transforms_for(ts, table) == Some(ts[i].columns@),
    decreases i,
{
    if i > 0 {
        lemma_transforms_for_found(ts.drop_first(), table, i - 1);
    }
}

proof fn lemma_transforms_for_missing(ts: Seq<TableTransforms>, table: Seq<char>)
    requires
        forall|j: int| 0 <= j < ts.len() ==> (#[trigger] ts[j]).table@ != table,
    ensures
        spec_transforms_for(ts, table) is None,
    decreases ts.len(),
{
    if ts.len() > 0 {
        lemma_transforms_for_missing(ts.drop_first(), table);
    }
}

impl Config {
    /// The transforms configured for one table: the column set of the
    /// registry's first entry for it, or nothing when the table has no
    /// configured transforms.
    #[verifier::loop_isolation(false)]
    pub fn transforms_for(&self, table: &str) -> (r: Option<&Vec<ColumnTransform>>)
        ensures
            match self.transforms {
                Some(ts) => match r {
                    Some(cols) => spec_transforms_for(ts@, table@) == Some(cols@),
                    None => spec_transforms_for(ts@, table@) is None,
                },
                None => r is None,
            },
    {
        let ts = match &self.transforms {
            Some(ts) => ts,
            None => {
                return None;
            },
        };
        let mut i: usize = 0;
        while i < ts.len()
            invariant
                i <= ts@.len(),
                forall|j: int| 0 <= j < i ==> (#[trigger] ts@[j]).table@ != table@,
            decreases ts@.len() - i,
        {
            if str_eq(ts[i].table.as_str(), table) {
                proof {
                    lemma_transforms_for_found(ts@, table@, i as int);
                }
                return Some(&ts[i].columns);
            }
            i += 1;
        }
        proof {
            lemma_transforms_for_missing(ts@, table@);
        }
        None
    }
}

} // verus!
