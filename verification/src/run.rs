//! Export and import run logic: the file name given to each export
//! command, the recovery of a table name from an import file name, and
//! the ordering of import files.

use vstd::prelude::*;
use vstd::multiset::Multiset;
use vstd::string::StringExecFns;

use crate::config::{m2m_models, M2MModel, M2MTable};
use crate::text::{
    dec_rep2, dec_string2, lemma_dec_digit_val, lemma_dec_rep2_two_digits,
    lemma_lex_le_total, lemma_lex_le_trans, lex_le, str_eq, str_le,
};

verus! {

/// Whether a table is declared many-to-many.
pub open spec fn spec_is_m2m(m2m: Seq<M2MModel>, table: Seq<char>) -> bool {
    exists|i: int| 0 <= i < m2m.len() && (#[trigger] m2m[i]).name == table
}

fn is_m2m_table(m2m: &Vec<M2MTable>, table: &str) -> (r: bool)
    ensures
        r == spec_is_m2m(m2m_models(m2m@), table@),
{
    let mut i: usize = 0;
    while i < m2m.len()
        invariant
            i <= m2m@.len(),
            forall|j: int| 0 <= j < i ==> (#[trigger] m2m_models(m2m@)[j]).name != table@,
        decreases m2m@.len() - i,
    {
        if str_eq(m2m[i].name.as_str(), table) {
            assert(m2m_models(m2m@)[i as int].name == table@);
            return true;
        }
        assert(m2m_models(m2m@)[i as int].name != table@);
        i += 1;
    }
    false
}

/// The numeric file index of one export command: its position in the
/// command list, offset by the total command count when the table is
/// declared many-to-many.
pub open spec fn spec_file_index(
    idx: int,
    total: int,
    table: Seq<char>,
    m2m: Seq<M2MModel>,
) -> int {
    if spec_is_m2m(m2m, table) {
        idx + total
    } else {
        idx
    }
}

/// The file name of one export command.
pub open spec fn spec_file_name(
    idx: int,
    total: int,
    table: Seq<char>,
    m2m: Seq<M2MModel>,
) -> Seq<char> {
    dec_rep2(spec_file_index(idx, total, table, m2m)) + "-"@ + table + ".csv"@
}

/// Names the file of the export command at position `idx` of `total`:
/// the two-digit-padded file index, a dash, the table name and the
/// `.csv` extension. A many-to-many table's index is offset by the
/// total command count, so its numeric prefix is at least the number of
/// primary commands and its file sorts after every primary file.
pub fn export_file_name(idx: usize, total: usize, table: &str, m2m: &Vec<M2MTable>) -> (r: String)
    requires
        idx < total,
        idx + total <= usize::MAX,
    ensures
        r@ == spec_file_name(idx as int, total as int, table@, m2m_models(m2m@)),
        spec_is_m2m(m2m_models(m2m@), table@) ==> spec_file_index(
            idx as int,
            total as int,
            table@,
            m2m_models(m2m@),
        ) >= total,
{
    let index = if is_m2m_table(m2m, table) {
        idx + total
    } else {
        idx
    };
    let mut s = dec_string2(index);
    s.append("-");
    s.append(table);
    s.append(".csv");
    proof {
        assert(s@ =~= spec_file_name(idx as int, total as int, table@, m2m_models(m2m@)));
    }
    s
}

/// Law: as long as every file index fits in two digits — at most fifty
/// export commands — the file of a many-to-many table sorts
/// lexicographically strictly after the file of every table not so
/// declared, whatever the tables are called and wherever they stand in
/// the dependency order.
pub proof fn lemma_m2m_file_sorts_after(
    idx_p: int,
    idx_m: int,
    total: int,
    tp: Seq<char>,
    tm: Seq<char>,
    m2m: Seq<M2MModel>,
)
    requires
        0 <= idx_p < total,
        0 <= idx_m < total,
        2 * total <= 100,
        !spec_is_m2m(m2m, tp),
        spec_is_m2m(m2m, tm),
    ensures
        lex_le(spec_file_name(idx_p, total, tp, m2m), spec_file_name(idx_m, total, tm, m2m)),
        !lex_le(spec_file_name(idx_m, total, tm, m2m), spec_file_name(idx_p, total, tp, m2m)),
{
    let a = idx_p;
    let b = idx_m + total;
    let da = dec_rep2(a);
    let db = dec_rep2(b);
    lemma_dec_rep2_two_digits(a);
    lemma_dec_rep2_two_digits(b);
    lemma_dec_digit_val(a / 10);
    lemma_dec_digit_val(a % 10);
    lemma_dec_digit_val(b / 10);
    lemma_dec_digit_val(b % 10);
    let na = spec_file_name(idx_p, total, tp, m2m);
    let nb = spec_file_name(idx_m, total, tm, m2m);
    assert(na == da + "-"@ + tp + ".csv"@);
    assert(nb == db + "-"@ + tm + ".csv"@);
    assert(na[0] == da[0] && na[1] == da[1]);
    assert(nb[0] == db[0] && nb[1] == db[1]);
    assert(a < b);
    assert(a / 10 <= b / 10) by {
        assert(a == 10 * (a / 10) + a % 10);
        assert(b == 10 * (b / 10) + b % 10);
    }
    if a / 10 < b / 10 {
        assert((na[0] as int) < (nb[0] as int));
        assert(lex_le(na, nb));
        assert(!lex_le(nb, na));
    } else {
        assert(a % 10 < b % 10) by {
            assert(a == 10 * (a / 10) + a % 10);
            assert(b == 10 * (b / 10) + b % 10);
        }
        assert(na[0] == nb[0]);
        assert((na[0] as int) == (nb[0] as int));
        assert(na.drop_first()[0] == na[1]);
        assert(nb.drop_first()[0] == nb[1]);
        assert((na[1] as int) < (nb[1] as int));
        assert(lex_le(na.drop_first(), nb.drop_first()));
        assert(lex_le(na, nb));
        assert(!lex_le(nb.drop_first(), na.drop_first()));
        assert(!lex_le(nb, na));
    }
}

/// Whether a character is a decimal digit.
pub open spec fn is_digit(c: char) -> bool {
    48 <= c as int && c as int <= 57
}

/// The table name recovered from an import file name, when the name is
/// two digits, a dash, the table name and the `.csv` extension.
pub open spec fn spec_csv_table(name: Seq<char>) -> Option<Seq<char>> {
    if name.len() >= 7 && is_digit(name[0]) && is_digit(name[1]) && name[2] == '-'
        && name.subrange(name.len() - 4, name.len() as int) == ".csv"@ {
        Some(name.subrange(3, name.len() - 4))
    } else {
        None
    }
}

/// Recovers the table name from an import file name by stripping the
/// two-digit numeric prefix and the `.csv` extension; any file name of
/// another shape is rejected.
pub fn parse_csv_filename(name: &str) -> (r: Option<String>)
    ensures
        match r {
            Some(t) => spec_csv_table(name@) == Some(t@),
            None => spec_csv_table(name@) is None,
        },
{
    let n = name.unicode_len();
    proof {
        reveal_strlit(".csv");
    }
    if n < 7 {
        return None;
    }
    let c0 = name.get_char(0);
    let c1 = name.get_char(1);
    if !((c0 as u32) >= 48 && (c0 as u32) <= 57 && (c1 as u32) >= 48 && (c1 as u32) <= 57) {
        return None;
    }
    if name.get_char(2) != '-' {
        return None;
    }
    let suffix_ok = name.get_char(n - 4) == '.' && name.get_char(n - 3) == 'c' && name.get_char(
        n - 2,
    ) == 's' && name.get_char(n - 1) == 'v';
    if !suffix_ok {
        proof {
            assert(name@.subrange(n - 4, n as int) != ".csv"@) by {
                if name@.subrange(n - 4, n as int) == ".csv"@ {
                    assert(name@.subrange(n - 4, n as int)[0] == '.');
                    assert(name@.subrange(n - 4, n as int)[1] == 'c');
                    assert(name@.subrange(n - 4, n as int)[2] == 's');
                    assert(name@.subrange(n - 4, n as int)[3] == 'v');
                }
            }
        }
        return None;
    }
    proof {
        assert(name@.subrange(n - 4, n as int) =~= ".csv"@);
    }
    Some(name.substring_char(3, n - 4).to_owned())
}

/// Sorts the import file names lexicographically: the result is ordered
/// and holds exactly the same names.
#[verifier::loop_isolation(false)]
pub fn sort_file_names(v: &mut Vec<String>)
    ensures
        final(v)@.len() == old(v)@.len(),
        final(v)@.to_multiset() == old(v)@.to_multiset(),
        forall|k1: int, k2: int|
            0 <= k1 <= k2 < final(v)@.len() ==> lex_le(
                (#[trigger] final(v)@[k1])@,
                (#[trigger] final(v)@[k2])@,
            ),
{
    broadcast use vstd::seq_lib::group_to_multiset_ensures;

    let ghost orig = old(v)@;
    let mut r: Vec<String> = Vec::new();
    proof {
        assert(r@.to_multiset().add(v@.to_multiset()) =~= orig.to_multiset());
    }
    while v.len() > 0
        invariant
            r@.len() + v@.len() == orig.len(),
            r@.to_multiset().add(v@.to_multiset()) == orig.to_multiset(),
            forall|k1: int, k2: int|
                0 <= k1 <= k2 < r@.len() ==> lex_le((#[trigger] r@[k1])@, (#[trigger] r@[k2])@),
            forall|k: int, j: int|
                0 <= k < r@.len() && 0 <= j < v@.len() ==> lex_le(
                    (#[trigger] r@[k])@,
                    (#[trigger] v@[j])@,
                ),
        decreases v@.len(),
    {
        let mut m: usize = 0;
        let mut t: usize = 1;
        proof {
            lemma_lex_le_total(v@[0]@, v@[0]@);
        }
        while t < v.len()
            invariant
                m < t <= v@.len(),
                forall|j: int| 0 <= j < t ==> lex_le(v@[m as int]@, (#[trigger] v@[j])@),
            decreases v@.len() - t,
        {
            if !str_le(v[m].as_str(), v[t].as_str()) {
                proof {
                    lemma_lex_le_total(v@[m as int]@, v@[t as int]@);
                    lemma_lex_le_total(v@[t as int]@, v@[t as int]@);
                    assert forall|j: int| 0 <= j < t + 1 implies lex_le(
                        v@[t as int]@,
                        (#[trigger] v@[j])@,
                    ) by {
                        if j < t {
                            lemma_lex_le_trans(v@[t as int]@, v@[m as int]@, v@[j]@);
                        }
                    }
                }
                m = t;
            }
            t += 1;
        }
        let ghost v_pre = v@;
        let x = v.remove(m);
        proof {
            assert(x == v_pre[m as int]);
            assert forall|j: int| 0 <= j < v@.len() implies lex_le(x@, (#[trigger] v@[j])@) by {
                if j < m {
                    assert(v@[j] == v_pre[j]);
                } else {
                    assert(v@[j] == v_pre[j + 1]);
                }
            }
        }
        let ghost r_pre = r@;
        r.push(x);
        proof {
            assert(r@ == r_pre.push(x));
            assert(r@.to_multiset() == r_pre.to_multiset().insert(x));
            assert(v_pre.to_multiset() == v@.to_multiset().insert(x)) by {
                assert(v@ == v_pre.remove(m as int));
                assert(v_pre.to_multiset().count(x) > 0) by {
                    assert(v_pre.contains(x));
                }
                assert(v_pre.remove(m as int).to_multiset() =~= v_pre.to_multiset().remove(x));
                assert(v_pre.to_multiset().remove(x).insert(x) =~= v_pre.to_multiset());
            }
            assert(r@.to_multiset().add(v@.to_multiset()) =~= orig.to_multiset());
            assert forall|k1: int, k2: int| 0 <= k1 <= k2 < r@.len() implies lex_le(
                (#[trigger] r@[k1])@,
                (#[trigger] r@[k2])@,
            ) by {
                if k2 < r@.len() - 1 {
                    assert(r@[k1] == r_pre[k1] && r@[k2] == r_pre[k2]);
                } else if k1 < k2 {
                    assert(r@[k1] == r_pre[k1]);
                    assert(r@[k2] == x);
                    assert(v_pre.contains(x));
                } else {
                    lemma_lex_le_total(r@[k1]@, r@[k1]@);
                }
            }
        }
    }
    proof {
        assert(v@.to_multiset() =~= Multiset::empty());
        assert(r@.to_multiset() =~= orig.to_multiset());
    }
    *v = r;
}

} // verus!
