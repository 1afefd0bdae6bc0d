//! Column transforms and their application to exported rows.
//!
//! A transform is a tagged kind with one evaluation method; a table's
//! configured transforms are resolved against the table's actual header
//! into an index-keyed set, and rows are rewritten field by field.

use vstd::prelude::*;

use fake::Fake;

use crate::config::{ColumnTransform, TransformKind};
use crate::text::{join_comma, join_with, lemma_join_split, split_on, split_str, str_eq};

verus! {

/// Clears the field to the empty string.
pub fn clear_field(_input: &str) -> (r: String)
    ensures
        r@ == Seq::<char>::empty(),
{
    String::new()
}

/// Relies on fake's en-locale `FirstName` faker: the value produced is
/// random, so nothing is promised of it.
#[verifier::external_body]
pub fn first_name_en(_input: &str) -> String {
    fake::faker::name::en::FirstName().fake()
}

/// Relies on fake's en-locale `LastName` faker: the value produced is
/// random, so nothing is promised of it.
#[verifier::external_body]
pub fn last_name_en(_input: &str) -> String {
    fake::faker::name::en::LastName().fake()
}

/// Relies on fake's en-locale `FreeEmail` faker: the value produced is
/// random, so nothing is promised of it.
#[verifier::external_body]
pub fn email_en(_input: &str) -> String {
    fake::faker::internet::en::FreeEmail().fake()
}

/// Relies on fake's en-locale `Username` faker: the value produced is
/// random, so nothing is promised of it.
#[verifier::external_body]
pub fn username_en(_input: &str) -> String {
    fake::faker::internet::en::Username().fake()
}

/// Replaces the field with a fixed placeholder password string.
pub fn django_garbage_password(_input: &str) -> (r: String)
    ensures
        r@ == "!asdfgghjwetrrytrytr453546jyuiEEHGH"@,
{
    "!asdfgghjwetrrytrytr453546jyuiEEHGH".to_owned()
}

/// Whether a transform kind's output is a function of its input alone;
/// the name fakers draw random values instead.
pub open spec fn kind_deterministic(k: TransformKind) -> bool {
    k == TransformKind::ClearField || k == TransformKind::DjangoGarbagePassword
}

/// The output of a deterministic transform kind.
pub open spec fn spec_kind_output(k: TransformKind, input: Seq<char>) -> Seq<char> {
    if k == TransformKind::DjangoGarbagePassword {
        "!asdfgghjwetrrytrytr453546jyuiEEHGH"@
    } else {
        Seq::empty()
    }
}

/// One column transform, evaluated by kind.
#[derive(Clone, Copy, PartialEq, Eq, Structural, Debug)]
pub struct Transform {
    pub kind: TransformKind,
}

impl Transform {
    /// The transform of the given kind.
    pub fn new(kind: &TransformKind) -> (t: Transform)
        ensures
            t.kind == *kind,
    {
        Transform { kind: *kind }
    }

    /// Evaluates the transform on one field; the output of a
    /// deterministic kind is pinned down exactly.
    pub fn apply(&self, input: &str) -> (r: String)
        ensures
            kind_deterministic(self.kind) ==> r@ == spec_kind_output(self.kind, input@),
    {
        match self.kind {
            TransformKind::ClearField => clear_field(input),
            TransformKind::FirstNameEn => first_name_en(input),
            TransformKind::LastNameEn => last_name_en(input),
            TransformKind::UsernameEn => username_en(input),
            TransformKind::EmailEn => email_en(input),
            TransformKind::DjangoGarbagePassword => django_garbage_password(input),
        }
    }
}

/// The first configured kind for the named column, if any.
pub open spec fn spec_lookup_column(cols: Seq<ColumnTransform>, name: Seq<char>) -> Option<
    TransformKind,
>
    decreases cols.len(),
{
    if cols.len() == 0 {
        None
    } else if cols[0].column@ == name {
        Some(cols[0].kind)
    } else {
        spec_lookup_column(cols.drop_first(), name)
    }
}

proof fn lemma_lookup_found(cols: Seq<ColumnTransform>, name: Seq<char>, i: int)
    requires
        0 <= i < cols.len(),
        cols[i].column@ == name,
        forall|j: int| 0 <= j < i ==> (#[trigger] cols[j]).column@ != name,
    ensures
        spec_lookup_column(cols, name) == Some(cols[i].kind),
    decreases i,
{
    if i > 0 {
        lemma_lookup_found(cols.drop_first(), name, i - 1);
    }
}

proof fn lemma_lookup_missing(cols: Seq<ColumnTransform>, name: Seq<char>)
    requires
        forall|j: int| 0 <= j < cols.len() ==> (#[trigger] cols[j]).column@ != name,
    ensures
        spec_lookup_column(cols, name) is None,
    decreases cols.len(),
{
    if cols.len() > 0 {
        lemma_lookup_missing(cols.drop_first(), name);
    }
}

#[verifier::loop_isolation(false)]
fn lookup_column(cols: &Vec<ColumnTransform>, name: &str) -> (r: Option<Transform>)
    ensures
        match r {
            Some(t) => spec_lookup_column(cols@, name@) == Some(t.kind),
            None => spec_lookup_column(cols@, name@) is None,
        },
{
    let mut i: usize = 0;
    while i < cols.len()
        invariant
            i <= cols@.len(),
            forall|j: int| 0 <= j < i ==> (#[trigger] cols@[j]).column@ != name@,
        decreases cols@.len() - i,
    {
        if str_eq(cols[i].column.as_str(), name) {
            proof {
                lemma_lookup_found(cols@, name@, i as int);
            }
            return Some(Transform::new(&cols[i].kind));
        }
        i += 1;
    }
    proof {
        lemma_lookup_missing(cols@, name@);
    }
    None
}

/// A table's transforms resolved against its actual header: one slot per
/// header position, holding the transform configured for that column
/// name, if any.
pub struct IndexedTransforms {
    pub transforms: Vec<Option<Transform>>,
}

impl IndexedTransforms {
    /// The transform kind at each header position.
    pub open spec fn kinds(self) -> Seq<Option<TransformKind>> {
        self.transforms@.map_values(
            |o: Option<Transform>|
                match o {
                    Some(t) => Some(t.kind),
                    None => None,
                },
        )
    }

    /// No position has a transform: rows pass through untouched.
    pub open spec fn is_passive(self) -> bool {
        forall|i: int| 0 <= i < self.kinds().len() ==> (#[trigger] self.kinds()[i]) is None
    }

    /// Every configured kind is deterministic.
    pub open spec fn all_deterministic(self) -> bool {
        forall|i: int|
            0 <= i < self.kinds().len() && (#[trigger] self.kinds()[i]) is Some
                ==> kind_deterministic(self.kinds()[i]->0)
    }

    /// Resolves a table's configured column transforms against the
    /// table's header: position `i` gets the transform configured for
    /// the column named by `header[i]`, if any.
    #[verifier::loop_isolation(false)]
    pub fn new(cols: &Vec<ColumnTransform>, header: &Vec<String>) -> (r: IndexedTransforms)
        ensures
            r.kinds().len() == header@.len(),
            forall|i: int|
                0 <= i < header@.len() ==> r.kinds()[i] == spec_lookup_column(
                    cols@,
                    header.deep_view()[i],
                ),
    {
        let mut transforms: Vec<Option<Transform>> = Vec::new();
        let mut i: usize = 0;
        while i < header.len()
            invariant
                i <= header@.len(),
                transforms@.len() == i,
                forall|j: int|
                    0 <= j < i ==> (match #[trigger] transforms@[j] {
                        Some(t) => spec_lookup_column(cols@, header.deep_view()[j]) == Some(t.kind),
                        None => spec_lookup_column(cols@, header.deep_view()[j]) is None,
                    }),
            decreases header@.len() - i,
        {
            let slot = lookup_column(cols, header[i].as_str());
            proof {
                assert(header.deep_view()[i as int] == header@[i as int]@);
            }
            transforms.push(slot);
            i += 1;
        }
        let r = IndexedTransforms { transforms };
        proof {
            assert(r.kinds().len() == header@.len());
            assert forall|i2: int| 0 <= i2 < header@.len() implies r.kinds()[i2]
                == spec_lookup_column(cols@, header.deep_view()[i2]) by {
                assert(r.kinds()[i2] == match r.transforms@[i2] {
                    Some(t) => Some(t.kind),
                    None => None,
                });
            }
        }
        r
    }

    /// Whether any position has a transform at all.
    pub fn is_active(&self) -> (r: bool)
        ensures
            r == !self.is_passive(),
    {
        let mut i: usize = 0;
        while i < self.transforms.len()
            invariant
                i <= self.transforms@.len(),
                forall|j: int| 0 <= j < i ==> (#[trigger] self.kinds()[j]) is None,
            decreases self.transforms@.len() - i,
        {
            if self.transforms[i].is_some() {
                assert(self.kinds()[i as int] is Some);
                return true;
            }
            assert(self.kinds()[i as int] is None);
            i += 1;
        }
        false
    }
}

impl Default for IndexedTransforms {
    /// The empty transform set: every row passes through untouched.
    fn default() -> (r: Self)
        ensures
            r.kinds().len() == 0,
            r.is_passive(),
    {
        IndexedTransforms { transforms: Vec::new() }
    }
}

/// The transform kind in force at field position `i`, if any: positions
/// beyond the header carry no transform.
pub open spec fn kind_at(kinds: Seq<Option<TransformKind>>, i: int) -> Option<TransformKind> {
    if 0 <= i < kinds.len() {
        kinds[i]
    } else {
        None
    }
}

/// How one row's fields relate to the fields written out: untouched
/// where no transform is configured, and pinned to the transform's
/// output where the configured kind is deterministic.
pub open spec fn fields_transformed(
    fields: Seq<Seq<char>>,
    kinds: Seq<Option<TransformKind>>,
    outs: Seq<Seq<char>>,
) -> bool {
    &&& outs.len() == fields.len()
    &&& forall|i: int|
        0 <= i < fields.len() ==> (match kind_at(kinds, i) {
            None => (#[trigger] outs[i]) == fields[i],
            Some(k) => kind_deterministic(k) ==> outs[i] == spec_kind_output(k, fields[i]),
        })
}

/// The row written out when every configured kind is deterministic.
pub open spec fn spec_transform_row(row: Seq<char>, kinds: Seq<Option<TransformKind>>) -> Seq<
    char,
> {
    join_with(
        Seq::new(
            split_on(row, ',').len(),
            |i: int|
                match kind_at(kinds, i) {
                    Some(k) => spec_kind_output(k, split_on(row, ',')[i]),
                    None => split_on(row, ',')[i],
                },
        ),
        ',',
    )
}

/// Rewrites one exported row: the row is split at commas, each field
/// whose position carries a transform is replaced by the transform's
/// output, and the fields are rejoined in order. A row of a table with
/// no transforms is returned byte-identical.
#[verifier::loop_isolation(false)]
pub fn transform_row(row: &str, ts: &IndexedTransforms) -> (out: String)
    ensures
        ts.is_passive() ==> out@ == row@,
        ts.all_deterministic() ==> out@ == spec_transform_row(row@, ts.kinds()),
        exists|outs: Seq<Seq<char>>|
            #[trigger] fields_transformed(split_on(row@, ','), ts.kinds(), outs) && out@
                == join_with(outs, ','),
{
    let ghost kinds = ts.kinds();
    if !ts.is_active() {
        let out = row.to_owned();
        proof {
            lemma_join_split(row@, ',');
            let outs = split_on(row@, ',');
            assert(fields_transformed(split_on(row@, ','), kinds, outs));
            assert(spec_transform_row(row@, kinds) == out@) by {
                assert(Seq::new(
                    split_on(row@, ',').len(),
                    |i: int|
                        match kind_at(kinds, i) {
                            Some(k) => spec_kind_output(k, split_on(row@, ',')[i]),
                            None => split_on(row@, ',')[i],
                        },
                ) =~= split_on(row@, ','));
            }
        }
        return out;
    }
    let fields = split_str(row, ',');
    let ghost spec_fields = split_on(row@, ',');
    let mut outs: Vec<String> = Vec::new();
    let mut i: usize = 0;
    while i < fields.len()
        invariant
            i <= fields@.len(),
            outs@.len() == i,
            forall|j: int|
                0 <= j < i ==> (match kind_at(kinds, j) {
                    None => (#[trigger] outs.deep_view()[j]) == spec_fields[j],
                    Some(k) => kind_deterministic(k) ==> outs.deep_view()[j] == spec_kind_output(
                        k,
                        spec_fields[j],
                    ),
                }),
        decreases fields@.len() - i,
    {
        let field = &fields[i];
        proof {
            assert(field@ == fields.deep_view()[i as int]);
            assert(kinds.len() == ts.transforms@.len());
        }
        let next = if i < ts.transforms.len() {
            match &ts.transforms[i] {
                Some(t) => {
                    proof {
                        assert(kinds[i as int] == Some(t.kind));
                    }
                    t.apply(field.as_str())
                },
                None => {
                    proof {
                        assert(kinds[i as int] is None);
                    }
                    field.clone()
                },
            }
        } else {
            field.clone()
        };
        proof {
            assert(match kind_at(kinds, i as int) {
                None => next@ == spec_fields[i as int],
                Some(k) => kind_deterministic(k) ==> next@ == spec_kind_output(
                    k,
                    spec_fields[i as int],
                ),
            });
        }
        let ghost w = outs;
        outs.push(next);
        proof {
            assert forall|j: int|
                0 <= j < i + 1 implies (match kind_at(kinds, j) {
                None => (#[trigger] outs.deep_view()[j]) == spec_fields[j],
                Some(k) => kind_deterministic(k) ==> outs.deep_view()[j] == spec_kind_output(
                    k,
                    spec_fields[j],
                ),
            }) by {
                assert(outs.deep_view()[j] == outs@[j]@);
                if j < i {
                    assert(outs@[j] == w@[j]);
                    assert(w.deep_view()[j] == w@[j]@);
                } else {
                    assert(outs@[j] == next);
                }
            }
        }
        i += 1;
    }
    let out = join_comma(&outs);
    proof {
        assert(fields_transformed(spec_fields, kinds, outs.deep_view()));
        if ts.all_deterministic() {
            assert(outs.deep_view() =~= Seq::new(
                spec_fields.len(),
                |i: int|
                    match kind_at(kinds, i) {
                        Some(k) => spec_kind_output(k, spec_fields[i]),
                        None => spec_fields[i],
                    },
            ));
        }
        if ts.is_passive() {
            assert(outs.deep_view() =~= spec_fields);
            lemma_join_split(row@, ',');
        }
    }
    out
}

} // verus!
