//! Verified text helpers: equality and search over strings, splitting and
//! joining delimited rows, and decimal formatting for file-name prefixes.

use vstd::prelude::*;

verus! {

/// Character-wise string equality, decided without any assumption on the
/// byte encoding.
pub fn str_eq(a: &str, b: &str) -> (r: bool)
    ensures
        r == (a@ == b@),
{
    let na = a.unicode_len();
    let nb = b.unicode_len();
    if na != nb {
        return false;
    }
    let mut i: usize = 0;
    while i < na
        invariant
            na == a@.len(),
            na == b@.len(),
            i <= na,
            forall|j: int| 0 <= j < i ==> a@[j] == b@[j],
        decreases na - i,
    {
        if a.get_char(i) != b.get_char(i) {
            return false;
        }
        i += 1;
    }
    proof {
        assert(a@ =~= b@);
    }
    true
}

/// Whether some element of `v` equals `s`, as strings.
pub fn contains_str(v: &Vec<String>, s: &str) -> (r: bool)
    ensures
        r == v.deep_view().contains(s@),
{
    let mut i: usize = 0;
    while i < v.len()
        invariant
            i <= v@.len(),
            forall|j: int| 0 <= j < i ==> v.deep_view()[j] != s@,
        decreases v@.len() - i,
    {
        if str_eq(v[i].as_str(), s) {
            assert(v.deep_view()[i as int] == s@);
            return true;
        }
        i += 1;
    }
    assert(forall|j: int| 0 <= j < v.deep_view().len() ==> v.deep_view()[j] != s@);
    false
}

/// The fields of a delimited row: the row split at every occurrence of
/// the delimiter. A row always has at least one field; delimiters at the
/// edges produce empty fields.
pub open spec fn split_on(s: Seq<char>, d: char) -> Seq<Seq<char>>
    decreases s.len(),
{
    if s.len() == 0 {
        seq![Seq::<char>::empty()]
    } else if s[0] == d {
        seq![Seq::<char>::empty()] + split_on(s.drop_first(), d)
    } else {
        let rest = split_on(s.drop_first(), d);
        seq![seq![s[0]] + rest[0]] + rest.drop_first()
    }
}

/// The fields rejoined with the delimiter between them.
pub open spec fn join_with(fs: Seq<Seq<char>>, d: char) -> Seq<char>
    decreases fs.len(),
{
    if fs.len() == 0 {
        Seq::empty()
    } else if fs.len() == 1 {
        fs[0]
    } else {
        fs[0] + seq![d] + join_with(fs.drop_first(), d)
    }
}

/// Splitting yields at least one field.
pub proof fn lemma_split_len(s: Seq<char>, d: char)
    ensures
        split_on(s, d).len() >= 1,
    decreases s.len(),
{
    if s.len() > 0 {
        lemma_split_len(s.drop_first(), d);
    }
}

/// Splitting a delimiter-free row yields that row as its only field.
pub proof fn lemma_split_no_delim(s: Seq<char>, d: char)
    requires
        forall|t: int| 0 <= t < s.len() ==> s[t] != d,
    ensures
        split_on(s, d) == seq![s],
    decreases s.len(),
{
    if s.len() == 0 {
        assert(split_on(s, d) =~~= seq![s]);
    } else {
        let s1 = s.drop_first();
        lemma_split_no_delim(s1, d);
        lemma_split_len(s1, d);
        assert(seq![s[0]] + split_on(s1, d)[0] =~= s);
        assert(split_on(s1, d).drop_first() =~= Seq::<Seq<char>>::empty());
        assert(split_on(s, d) =~= seq![s]);
    }
}

/// Splitting a row whose first delimiter stands at position `p` yields
/// the prefix before it and then the fields of the remainder.
pub proof fn lemma_split_at_delim(s: Seq<char>, d: char, p: int)
    requires
        0 <= p < s.len(),
        s[p] == d,
        forall|t: int| 0 <= t < p ==> s[t] != d,
    ensures
        split_on(s, d) == seq![s.subrange(0, p)] + split_on(s.subrange(p + 1, s.len() as int), d),
    decreases p,
{
    let s1 = s.drop_first();
    if p == 0 {
        assert(s.subrange(0, 0) =~= Seq::<char>::empty());
        assert(s.subrange(1, s.len() as int) =~= s1);
        assert(split_on(s, d) =~= seq![s.subrange(0, 0)] + split_on(
            s.subrange(1, s.len() as int),
            d,
        ));
    } else {
        assert(s1[p - 1] == d);
        lemma_split_at_delim(s1, d, p - 1);
        lemma_split_len(s.subrange(p + 1, s.len() as int), d);
        assert(s1.subrange(0, p - 1) =~= s.subrange(1, p));
        assert(s1.subrange(p, s1.len() as int) =~= s.subrange(p + 1, s.len() as int));
        let rest = split_on(s1, d);
        assert(rest == seq![s.subrange(1, p)] + split_on(s.subrange(p + 1, s.len() as int), d));
        assert(rest[0] == s.subrange(1, p));
        assert(seq![s[0]] + rest[0] =~= s.subrange(0, p));
        assert(rest.drop_first() =~= split_on(s.subrange(p + 1, s.len() as int), d));
        assert(split_on(s, d) =~= seq![s.subrange(0, p)] + split_on(
            s.subrange(p + 1, s.len() as int),
            d,
        ));
    }
}

/// Appending one more field joins as the old row, the delimiter, then
/// the new field.
pub proof fn lemma_join_push(fs: Seq<Seq<char>>, x: Seq<char>, d: char)
    requires
        fs.len() >= 1,
    ensures
        join_with(fs.push(x), d) == join_with(fs, d) + seq![d] + x,
    decreases fs.len(),
{
    if fs.len() == 1 {
        assert(fs.push(x).drop_first() =~= seq![x]);
        assert(fs.push(x)[0] == fs[0]);
        assert(join_with(seq![x], d) == x);
        assert(join_with(fs.push(x), d) == fs[0] + seq![d] + x);
        assert(join_with(fs, d) + seq![d] + x =~= fs[0] + seq![d] + x);
    } else {
        lemma_join_push(fs.drop_first(), x, d);
        assert(fs.push(x).drop_first() =~= fs.drop_first().push(x));
        assert(join_with(fs.push(x), d) == fs[0] + seq![d] + join_with(fs.drop_first().push(x), d));
        assert(join_with(fs.push(x), d) =~= join_with(fs, d) + seq![d] + x);
    }
}

/// Joining the fields of a row restores the row.
pub proof fn lemma_join_split(s: Seq<char>, d: char)
    ensures
        join_with(split_on(s, d), d) == s,
    decreases s.len(),
{
    if s.len() == 0 {
    } else {
        let s1 = s.drop_first();
        lemma_join_split(s1, d);
        lemma_split_len(s1, d);
        let rest = split_on(s1, d);
        if s[0] == d {
            assert((seq![Seq::<char>::empty()] + rest).drop_first() =~= rest);
            assert(join_with(split_on(s, d), d) =~= s);
        } else {
            let fs = seq![seq![s[0]] + rest[0]] + rest.drop_first();
            if rest.len() == 1 {
                assert(fs =~= seq![seq![s[0]] + rest[0]]);
                assert(join_with(fs, d) == seq![s[0]] + rest[0]);
                assert(join_with(rest, d) == rest[0]);
                assert(seq![s[0]] + s1 =~= s);
            } else {
                assert(fs.len() >= 2);
                assert(fs.drop_first() =~= rest.drop_first());
                assert(join_with(fs, d) == fs[0] + seq![d] + join_with(rest.drop_first(), d));
                assert(join_with(rest, d) == rest[0] + seq![d] + join_with(rest.drop_first(), d));
                assert(fs[0] == seq![s[0]] + rest[0]);
                assert(join_with(fs, d) =~= seq![s[0]] + join_with(rest, d));
                assert(seq![s[0]] + s1 =~= s);
            }
        }
    }
}

proof fn lemma_deep_view_push(v: Vec<String>, w: Vec<String>, x: String)
    requires
        v@ == w@.push(x),
    ensures
        v.deep_view() == w.deep_view().push(x@),
{
    assert forall|j: int| 0 <= j < v@.len() implies v.deep_view()[j] == v@[j]@ by {}
    assert forall|j: int| 0 <= j < w@.len() implies w.deep_view()[j] == w@[j]@ by {}
    assert(v.deep_view() =~= w.deep_view().push(x@));
}

/// Splits a row into its delimited fields.
#[verifier::loop_isolation(false)]
pub fn split_str(s: &str, d: char) -> (r: Vec<String>)
    ensures
        r.deep_view() == split_on(s@, d),
{
    let n = s.unicode_len();
    let mut r: Vec<String> = Vec::new();
    let mut start: usize = 0;
    let mut i: usize = 0;
    proof {
        assert(s@.subrange(0, n as int) =~= s@);
        assert(r.deep_view() =~= Seq::<Seq<char>>::empty());
    }
    while i < n
        invariant
            start <= i <= n,
            split_on(s@, d) == r.deep_view() + split_on(s@.subrange(start as int, n as int), d),
            forall|t: int| start <= t < i ==> s@[t] != d,
        decreases n - i,
    {
        if s.get_char(i) == d {
            let f = s.substring_char(start, i).to_owned();
            proof {
                let tail = s@.subrange(start as int, n as int);
                assert(tail.subrange(0, i - start) =~= s@.subrange(start as int, i as int));
                assert(forall|t: int| 0 <= t < i - start ==> tail[t] != d);
                assert(tail[i - start] == d);
                lemma_split_at_delim(tail, d, i - start);
                assert(tail.subrange(i - start + 1, tail.len() as int) =~= s@.subrange(
                    i as int + 1,
                    n as int,
                ));
            }
            let ghost w = r;
            r.push(f);
            proof {
                lemma_deep_view_push(r, w, f);
                assert(f@ == s@.subrange(start as int, i as int));
                assert(split_on(s@, d) =~= r.deep_view() + split_on(
                    s@.subrange(i as int + 1, n as int),
                    d,
                ));
            }
            start = i + 1;
        }
        i += 1;
    }
    let f = s.substring_char(start, n).to_owned();
    proof {
        lemma_split_no_delim(s@.subrange(start as int, n as int), d);
    }
    let ghost w = r;
    r.push(f);
    proof {
        lemma_deep_view_push(r, w, f);
        assert(split_on(s@, d) =~= r.deep_view());
    }
    r
}

/// Joins fields back into one comma-delimited row.
#[verifier::loop_isolation(false)]
pub fn join_comma(fs: &Vec<String>) -> (r: String)
    ensures
        r@ == join_with(fs.deep_view(), ','),
{
    let mut r = String::new();
    if fs.len() == 0 {
        return r;
    }
    r.append(fs[0].as_str());
    let mut k: usize = 1;
    proof {
        assert(fs.deep_view().subrange(0, 1) =~= seq![fs.deep_view()[0]]);
        assert(fs.deep_view()[0] == fs@[0]@);
        assert(r@ == join_with(fs.deep_view().subrange(0, 1), ','));
    }
    while k < fs.len()
        invariant
            1 <= k <= fs@.len(),
            r@ == join_with(fs.deep_view().subrange(0, k as int), ','),
        decreases fs@.len() - k,
    {
        r.append(",");
        r.append(fs[k].as_str());
        proof {
            reveal_strlit(",");
            let prefix = fs.deep_view().subrange(0, k as int);
            lemma_join_push(prefix, fs.deep_view()[k as int], ',');
            assert(prefix.push(fs.deep_view()[k as int]) =~= fs.deep_view().subrange(0, k + 1));
            assert(fs.deep_view()[k as int] == fs@[k as int]@);
            assert(","@ =~= seq![',']);
            assert(r@ =~= join_with(fs.deep_view().subrange(0, k + 1), ','));
        }
        k += 1;
    }
    proof {
        assert(fs.deep_view().subrange(0, fs@.len() as int) =~= fs.deep_view());
    }
    r
}

/// Lexicographic order on character sequences, by code point; a proper
/// prefix comes first.
pub open spec fn lex_le(a: Seq<char>, b: Seq<char>) -> bool
    decreases a.len(),
{
    if a.len() == 0 {
        true
    } else if b.len() == 0 {
        false
    } else if (a[0] as int) < (b[0] as int) {
        true
    } else if (a[0] as int) > (b[0] as int) {
        false
    } else {
        lex_le(a.drop_first(), b.drop_first())
    }
}

/// Any two strings are ordered one way or the other.
pub proof fn lemma_lex_le_total(a: Seq<char>, b: Seq<char>)
    ensures
        lex_le(a, b) || lex_le(b, a),
    decreases a.len(),
{
    if a.len() > 0 && b.len() > 0 && a[0] == b[0] {
        lemma_lex_le_total(a.drop_first(), b.drop_first());
    }
}

/// Lexicographic order is transitive.
pub proof fn lemma_lex_le_trans(a: Seq<char>, b: Seq<char>, c: Seq<char>)
    requires
        lex_le(a, b),
        lex_le(b, c),
    ensures
        lex_le(a, c),
    decreases a.len(),
{
    if a.len() > 0 && b.len() > 0 && c.len() > 0 && a[0] == b[0] && b[0] == c[0] {
        lemma_lex_le_trans(a.drop_first(), b.drop_first(), c.drop_first());
    }
}

/// Decides the lexicographic order of two strings.
#[verifier::loop_isolation(false)]
pub fn str_le(a: &str, b: &str) -> (r: bool)
    ensures
        r == lex_le(a@, b@),
{
    let na = a.unicode_len();
    let nb = b.unicode_len();
    let mut i: usize = 0;
    proof {
        assert(a@.skip(0) =~= a@);
        assert(b@.skip(0) =~= b@);
    }
    while i < na && i < nb
        invariant
            i <= na,
            i <= nb,
            lex_le(a@, b@) == lex_le(a@.skip(i as int), b@.skip(i as int)),
        decreases na - i,
    {
        let ca = a.get_char(i);
        let cb = b.get_char(i);
        proof {
            assert(a@.skip(i as int)[0] == a@[i as int]);
            assert(b@.skip(i as int)[0] == b@[i as int]);
        }
        if (ca as u32) < (cb as u32) {
            return true;
        }
        if (ca as u32) > (cb as u32) {
            return false;
        }
        proof {
            assert(a@.skip(i as int).drop_first() =~= a@.skip(i + 1));
            assert(b@.skip(i as int).drop_first() =~= b@.skip(i + 1));
        }
        i += 1;
    }
    proof {
        if i == na {
            assert(a@.skip(i as int).len() == 0);
        } else {
            assert(b@.skip(i as int).len() == 0);
            assert(a@.skip(i as int).len() > 0);
        }
    }
    i == na
}

/// The decimal digit for one value below ten.
pub open spec fn dec_digit(n: int) -> char {
    if n == 0 {
        '0'
    } else if n == 1 {
        '1'
    } else if n == 2 {
        '2'
    } else if n == 3 {
        '3'
    } else if n == 4 {
        '4'
    } else if n == 5 {
        '5'
    } else if n == 6 {
        '6'
    } else if n == 7 {
        '7'
    } else if n == 8 {
        '8'
    } else {
        '9'
    }
}

/// The decimal representation of a number, without leading zeros.
pub open spec fn dec_rep(n: int) -> Seq<char>
    decreases n,
{
    if n < 10 {
        seq![dec_digit(n)]
    } else {
        dec_rep(n / 10).push(dec_digit(n % 10))
    }
}

/// A decimal representation zero-padded to at least two digits.
pub open spec fn dec_rep2(n: int) -> Seq<char> {
    if n < 10 {
        seq!['0'] + dec_rep(n)
    } else {
        dec_rep(n)
    }
}

/// Digit characters carry consecutive code points in digit order.
pub proof fn lemma_dec_digit_val(n: int)
    requires
        0 <= n <= 9,
    ensures
        dec_digit(n) as int == 48 + n,
{
}

/// Below one hundred the padded representation is exactly two digits:
/// the tens digit then the ones digit.
pub proof fn lemma_dec_rep2_two_digits(n: int)
    requires
        0 <= n < 100,
    ensures
        dec_rep2(n) == seq![dec_digit(n / 10), dec_digit(n % 10)],
{
    if n < 10 {
        assert(n / 10 == 0);
        assert(n % 10 == n);
        assert(dec_rep2(n) =~= seq![dec_digit(n / 10), dec_digit(n % 10)]);
    } else {
        assert(10 <= n / 10 * 10 <= n);
        assert(n / 10 < 10);
        assert(dec_rep(n / 10) == seq![dec_digit(n / 10)]);
        assert(dec_rep2(n) =~= seq![dec_digit(n / 10), dec_digit(n % 10)]);
    }
}

fn digit_str(d: usize) -> (r: String)
    requires
        d < 10,
    ensures
        r@ == seq![dec_digit(d as int)],
{
    let r = if d == 0 {
        proof {
            reveal_strlit("0");
        }
        "0".to_owned()
    } else if d == 1 {
        proof {
            reveal_strlit("1");
        }
        "1".to_owned()
    } else if d == 2 {
        proof {
            reveal_strlit("2");
        }
        "2".to_owned()
    } else if d == 3 {
        proof {
            reveal_strlit("3");
        }
        "3".to_owned()
    } else if d == 4 {
        proof {
            reveal_strlit("4");
        }
        "4".to_owned()
    } else if d == 5 {
        proof {
            reveal_strlit("5");
        }
        "5".to_owned()
    } else if d == 6 {
        proof {
            reveal_strlit("6");
        }
        "6".to_owned()
    } else if d == 7 {
        proof {
            reveal_strlit("7");
        }
        "7".to_owned()
    } else if d == 8 {
        proof {
            reveal_strlit("8");
        }
        "8".to_owned()
    } else {
        proof {
            reveal_strlit("9");
        }
        "9".to_owned()
    };
    proof {
        assert(r@ =~= seq![dec_digit(d as int)]);
    }
    r
}

/// Writes a number in decimal.
pub fn dec_string(n: usize) -> (r: String)
    ensures
        r@ == dec_rep(n as int),
    decreases n,
{
    if n < 10 {
        digit_str(n)
    } else {
        assert(n / 10 < n);
        let mut s = dec_string(n / 10);
        let low = digit_str(n % 10);
        s.append(low.as_str());
        proof {
            assert(s@ =~= dec_rep(n as int));
        }
        s
    }
}

/// Writes a number in decimal, zero-padded to at least two digits.
pub fn dec_string2(n: usize) -> (r: String)
    ensures
        r@ == dec_rep2(n as int),
{
    if n < 10 {
        let mut s = digit_str(0);
        let low = digit_str(n);
        s.append(low.as_str());
        proof {
            assert(s@ =~= dec_rep2(n as int));
        }
        s
    } else {
        dec_string(n)
    }
}

/// The position of the first element of `v` equal to `s`, if any.
pub fn index_of_str(v: &Vec<String>, s: &str) -> (r: Option<usize>)
    ensures
        match r {
            Some(i) => i < v@.len() && v.deep_view()[i as int] == s@ && forall|j: int|
                0 <= j < i ==> v.deep_view()[j] != s@,
            None => !v.deep_view().contains(s@),
        },
{
    let mut i: usize = 0;
    while i < v.len()
        invariant
            i <= v@.len(),
            forall|j: int| 0 <= j < i ==> v.deep_view()[j] != s@,
        decreases v@.len() - i,
    {
        if str_eq(v[i].as_str(), s) {
            assert(v.deep_view()[i as int] == s@);
            return Some(i);
        }
        i += 1;
    }
    assert(forall|j: int| 0 <= j < v.deep_view().len() ==> v.deep_view()[j] != s@);
    None
}

} // verus!
