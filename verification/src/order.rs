use vstd::multiset::Multiset;
use vstd::prelude::*;
use vstd::relations::{sorted_by, total_ordering};
use vstd::seq_lib::lemma_multiset_commutative;
use vstd::string::StrSliceExecFns;

verus! {

broadcast use vstd::seq_lib::group_to_multiset_ensures, vstd::multiset::group_multiset_axioms;

/// Lexicographic order on character sequences, by Unicode scalar value.
/// For the keys of a secret's field map this coincides with the byte-wise
/// order of their UTF-8 encodings.
pub open spec fn lex_le(a: Seq<char>, b: Seq<char>) -> bool
    decreases a.len(),
{
    if a.len() == 0 {
        true
    } else if b.len() == 0 {
        false
    } else if a[0] == b[0] {
        lex_le(a.drop_first(), b.drop_first())
    } else {
        a[0] < b[0]
    }
}

/// Order on display pairs: by key first, by value between equal keys.
pub open spec fn pair_le(x: (Seq<char>, Seq<char>), y: (Seq<char>, Seq<char>)) -> bool {
    if x.0 == y.0 {
        lex_le(x.1, y.1)
    } else {
        lex_le(x.0, y.0)
    }
}

pub open spec fn pair_le_fn() -> spec_fn((Seq<char>, Seq<char>), (Seq<char>, Seq<char>)) -> bool {
    |x: (Seq<char>, Seq<char>), y: (Seq<char>, Seq<char>)| pair_le(x, y)
}

/// `lex_le` holds in at least one direction, and in both only for equal
/// sequences.
pub proof fn lemma_lex_le_total(a: Seq<char>, b: Seq<char>)
    ensures
        lex_le(a, b) || lex_le(b, a),
        lex_le(a, b) && lex_le(b, a) ==> a == b,
    decreases a.len(),
{
    if a.len() == 0 {
        if lex_le(b, a) {
            assert(b.len() == 0);
            assert(a =~= b);
        }
    } else if b.len() == 0 {
    } else if a[0] == b[0] {
        lemma_lex_le_total(a.drop_first(), b.drop_first());
        if lex_le(a, b) && lex_le(b, a) {
            assert(a.drop_first() == b.drop_first());
            assert(a =~= seq![a[0]] + a.drop_first());
            assert(b =~= seq![b[0]] + b.drop_first());
            assert(a == b);
        }
    }
}

pub proof fn lemma_lex_le_trans(a: Seq<char>, b: Seq<char>, c: Seq<char>)
    requires
        lex_le(a, b),
        lex_le(b, c),
    ensures
        lex_le(a, c),
    decreases a.len(),
{
    if a.len() > 0 && b.len() > 0 && c.len() > 0 {
        if a[0] == b[0] && b[0] == c[0] {
            lemma_lex_le_trans(a.drop_first(), b.drop_first(), c.drop_first());
        }
    }
}

/// `pair_le` is a total ordering, which is what `sorted_by` asks of a
/// comparison.
pub proof fn lemma_pair_le_total_ordering()
    ensures
        total_ordering(pair_le_fn()),
{
    let leq = pair_le_fn();
    assert forall|x: (Seq<char>, Seq<char>), y: (Seq<char>, Seq<char>)| #[trigger]
        leq(x, y) || leq(y, x) by {
        lemma_lex_le_total(x.0, y.0);
        lemma_lex_le_total(x.1, y.1);
    }
    assert forall|x: (Seq<char>, Seq<char>), y: (Seq<char>, Seq<char>)|
        #[trigger] leq(x, y) && #[trigger] leq(y, x) implies x == y by {
        lemma_lex_le_total(x.0, y.0);
        lemma_lex_le_total(x.1, y.1);
        assert(x.0 == y.0 && x.1 == y.1);
        assert(x == y);
    }
    assert forall|x: (Seq<char>, Seq<char>), y: (Seq<char>, Seq<char>), z: (Seq<char>, Seq<char>)|
        #[trigger] leq(x, y) && #[trigger] leq(y, z) implies leq(x, z) by {
        if x.0 == y.0 && y.0 == z.0 {
            lemma_lex_le_trans(x.1, y.1, z.1);
        } else if x.0 != y.0 && y.0 != z.0 {
            lemma_lex_le_trans(x.0, y.0, z.0);
            if x.0 == z.0 {
                lemma_lex_le_total(x.0, y.0);
            }
        }
    }
}

/// The characters of a string, as a vector.
pub fn chars_of(s: &str) -> (v: Vec<char>)
    ensures
        v@ == s@,
{
    let n = s.unicode_len();
    let mut v: Vec<char> = Vec::new();
    let mut i: usize = 0;
    while i < n
        invariant
            n == s@.len(),
            i <= n,
            v@ =~= s@.subrange(0, i as int),
        decreases n - i,
    {
        v.push(s.get_char(i));
        i += 1;
    }
    proof {
        assert(v@ =~= s@);
    }
    v
}

fn lex_le_chars(a: &Vec<char>, b: &Vec<char>) -> (r: bool)
    ensures
        r == lex_le(a@, b@),
{
    let mut i: usize = 0;
    proof {
        assert(a@.skip(0) =~= a@);
        assert(b@.skip(0) =~= b@);
    }
    loop
        invariant
            i <= a.len(),
            i <= b.len(),
            lex_le(a@, b@) == lex_le(a@.skip(i as int), b@.skip(i as int)),
        decreases a.len() - i,
    {
        if i == a.len() {
            proof {
                assert(a@.skip(i as int).len() == 0);
            }
            return true;
        }
        if i == b.len() {
            proof {
                assert(b@.skip(i as int).len() == 0);
                assert(a@.skip(i as int).len() > 0);
            }
            return false;
        }
        let ca = a[i];
        let cb = b[i];
        proof {
            assert(a@.skip(i as int)[0] == a@[i as int]);
            assert(b@.skip(i as int)[0] == b@[i as int]);
        }
        if ca != cb {
            return ca < cb;
        }
        proof {
            assert(a@.skip(i as int).drop_first() =~= a@.skip(i as int + 1));
            assert(b@.skip(i as int).drop_first() =~= b@.skip(i as int + 1));
        }
        i += 1;
    }
}

/// Whether `x` goes no later than `y` in a sorted field listing.
fn pair_le_exec(x: &(String, String), y: &(String, String)) -> (r: bool)
    ensures
        r == pair_le(x.deep_view(), y.deep_view()),
{
    let xk = chars_of(x.0.as_str());
    let yk = chars_of(y.0.as_str());
    let kl = if xk.len() < yk.len() {
        xk.len()
    } else {
        yk.len()
    };
    let mut i: usize = 0;
    while i < kl
        invariant
            kl <= xk.len(),
            kl <= yk.len(),
            i <= kl,
            xk@ == x.0@,
            yk@ == y.0@,
            forall|k: int| 0 <= k < i ==> xk@[k] == yk@[k],
        decreases kl - i,
    {
        if xk[i] != yk[i] {
            proof {
                assert(xk@ != yk@) by {
                    assert(xk@[i as int] != yk@[i as int]);
                }
            }
            return lex_le_chars(&xk, &yk);
        }
        i += 1;
    }
    if xk.len() == yk.len() {
        proof {
            assert(xk@ =~= yk@);
        }
        let xv = chars_of(x.1.as_str());
        let yv = chars_of(y.1.as_str());
        lex_le_chars(&xv, &yv)
    } else {
        proof {
            assert(xk@ != yk@) by {
                assert(xk@.len() != yk@.len());
            }
        }
        lex_le_chars(&xk, &yk)
    }
}

/// Inserting an element into a sequence adds it to the multiset of elements.
pub proof fn lemma_insert_to_multiset<A>(s: Seq<A>, j: int, e: A)
    requires
        0 <= j <= s.len(),
    ensures
        s.insert(j, e).to_multiset() == s.to_multiset().insert(e),
{
    let left = s.subrange(0, j);
    let right = s.subrange(j, s.len() as int);
    assert(s.insert(j, e) =~= left + (seq![e] + right));
    assert(s =~= left + right);
    lemma_multiset_commutative(left, seq![e] + right);
    lemma_multiset_commutative(seq![e], right);
    lemma_multiset_commutative(left, right);
    assert(seq![e] =~= Seq::<A>::empty().push(e));
    assert(Seq::<A>::empty().to_multiset() =~= Multiset::<A>::empty());
    assert(s.insert(j, e).to_multiset() =~= s.to_multiset().insert(e));
}

/// No two pairs share a key.
pub open spec fn keys_unique<V>(ps: Seq<(Seq<char>, V)>) -> bool {
    forall|i: int, j: int|
        0 <= i < ps.len() && 0 <= j < ps.len() && i != j ==> (#[trigger] ps[i]).0 != (
        #[trigger] ps[j]).0
}

/// Keys grow strictly along the sequence.
pub open spec fn strictly_ascending_keys(ps: Seq<(Seq<char>, Seq<char>)>) -> bool {
    forall|i: int, j: int|
        0 <= i < j < ps.len() ==> lex_le((#[trigger] ps[i]).0, (#[trigger] ps[j]).0) && ps[i].0
            != ps[j].0
}

/// A sorted rearrangement of pairs with pairwise distinct keys is strictly
/// ascending by key.
pub proof fn lemma_listing_strict_when_keys_unique(
    ps: Seq<(Seq<char>, Seq<char>)>,
    orig: Seq<(Seq<char>, Seq<char>)>,
)
    requires
        sorted_by(ps, pair_le_fn()),
        ps.to_multiset() == orig.to_multiset(),
        keys_unique(orig),
    ensures
        strictly_ascending_keys(ps),
{
    assert(orig.no_duplicates()) by {
        assert forall|i: int, j: int|
            0 <= i < orig.len() && 0 <= j < orig.len() && i != j implies orig[i] != orig[j] by {
            assert(orig[i].0 != orig[j].0);
        }
    }
    orig.lemma_multiset_has_no_duplicates();
    ps.lemma_multiset_has_no_duplicates_conv();
    assert forall|i: int, j: int| 0 <= i < j < ps.len() implies lex_le(ps[i].0, ps[j].0) && ps[i].0
        != ps[j].0 by {
        assert(pair_le_fn()(ps[i], ps[j]));
        assert(ps[i] != ps[j]);
        if ps[i].0 == ps[j].0 {
            assert(ps.contains(ps[i])) by {
                assert(0 <= i < ps.len() && ps[i] == ps[i]);
            }
            assert(ps.contains(ps[j])) by {
                assert(0 <= j < ps.len() && ps[j] == ps[j]);
            }
            assert(orig.to_multiset().count(ps[i]) > 0);
            assert(orig.to_multiset().count(ps[j]) > 0);
            assert(orig.contains(ps[i]));
            assert(orig.contains(ps[j]));
            let a = choose|k: int| 0 <= k < orig.len() && orig[k] == ps[i];
            let b = choose|k: int| 0 <= k < orig.len() && orig[k] == ps[j];
            assert(orig[a] == ps[i]);
            assert(orig[b] == ps[j]);
            assert(a != b);
            assert(orig[a].0 != orig[b].0);
        }
        assert(pair_le(ps[i], ps[j]));
    }
}

/// The first position of `out` whose pair does not precede `x`.
fn insert_position(out: &Vec<(String, String)>, x: &(String, String)) -> (j: usize)
    ensures
        j <= out.len(),
        forall|k: int| 0 <= k < j ==> pair_le(#[trigger] out.deep_view()[k], x.deep_view()),
        j < out.len() ==> !pair_le(out.deep_view()[j as int], x.deep_view()),
{
    let mut j: usize = 0;
    while j < out.len()
        invariant
            j <= out.len(),
            forall|k: int| 0 <= k < j ==> pair_le(#[trigger] out.deep_view()[k], x.deep_view()),
        decreases out.len() - j,
    {
        let le = pair_le_exec(&out[j], x);
        proof {
            assert(out.deep_view()[j as int] == out[j as int].deep_view());
        }
        if !le {
            return j;
        }
        j += 1;
    }
    j
}

/// Sort display pairs by key, and by value between equal keys: the result is
/// the unique sorted rearrangement of the input pairs.
pub fn sort_pairs(v: &Vec<(String, String)>) -> (r: Vec<(String, String)>)
    ensures
        sorted_by(r.deep_view(), pair_le_fn()),
        r.deep_view().to_multiset() == v.deep_view().to_multiset(),
        r.len() == v.len(),
{
    let mut out: Vec<(String, String)> = Vec::new();
    let mut idx: usize = 0;
    proof {
        assert(out.deep_view() =~= Seq::<(Seq<char>, Seq<char>)>::empty());
        assert(v.deep_view().subrange(0, 0) =~= Seq::<(Seq<char>, Seq<char>)>::empty());
    }
    while idx < v.len()
        invariant
            idx <= v.len(),
            out.len() == idx,
            sorted_by(out.deep_view(), pair_le_fn()),
            out.deep_view().to_multiset() == v.deep_view().subrange(0, idx as int).to_multiset(),
        decreases v.len() - idx,
    {
        let xr = &v[idx];
        let x = (xr.0.clone(), xr.1.clone());
        let ghost xd = x.deep_view();
        proof {
            assert(xd == v.deep_view()[idx as int]);
        }
        let j = insert_position(&out, &x);
        let ghost od = out.deep_view();
        out.insert(j, x);
        proof {
            let nd = od.insert(j as int, xd);
            assert(out.deep_view() =~= nd);
            lemma_pair_le_total_ordering();
            assert forall|p: int, q: int| 0 <= p < q < nd.len() implies #[trigger] pair_le_fn()(
                nd[p],
                nd[q],
            ) by {
                let leq = pair_le_fn();
                if q < j {
                    assert(nd[p] == od[p] && nd[q] == od[q]);
                    assert(leq(od[p], od[q]));
                } else if p < j && q == j {
                    assert(nd[p] == od[p] && nd[q] == xd);
                } else if p < j && q > j {
                    assert(nd[p] == od[p] && nd[q] == od[q - 1]);
                    assert(leq(od[p], od[q - 1]));
                } else if p == j {
                    assert(nd[p] == xd && nd[q] == od[q - 1]);
                    assert(!leq(od[j as int], xd));
                    assert(leq(xd, od[j as int]));
                    if q - 1 > j {
                        assert(leq(od[j as int], od[q - 1]));
                    }
                } else {
                    assert(nd[p] == od[p - 1] && nd[q] == od[q - 1]);
                    assert(leq(od[p - 1], od[q - 1]));
                }
            }
            lemma_insert_to_multiset(od, j as int, xd);
            assert(v.deep_view().subrange(0, idx as int + 1) =~= v.deep_view().subrange(
                0,
                idx as int,
            ).push(v.deep_view()[idx as int]));
        }
        idx += 1;
    }
    proof {
        assert(v.deep_view().subrange(0, v.len() as int) =~= v.deep_view());
    }
    out
}

} // verus!
