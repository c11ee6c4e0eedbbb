//! Byte-wise lexicographic orderings.
//!
//! Cell values and column names are byte strings, and a key tuple is a
//! sequence of byte strings.  Keys are emitted in ascending lexicographic
//! order, so the orderings below are total orders; the lemmas establish
//! that, and executable comparators are proved to decide them.

use vstd::prelude::*;
use vstd::relations::{sorted_by, total_ordering};
use vstd::seq_lib::{group_to_multiset_ensures, lemma_multiset_commutative, lemma_sorted_unique};
use vstd::multiset::Multiset;
use vstd::std_specs::cmp::PartialEqSpec;
use vstd::std_specs::vec::vec_clone_deep_view_proof;

verus! {

/// Non-strict lexicographic order on byte strings: `a` is less than or
/// equal to `b` when `a` is a prefix of `b` or the first differing byte
/// of `a` is smaller.
pub open spec fn bytes_le(a: Seq<u8>, b: Seq<u8>) -> bool
    decreases a.len(),
{
    if a.len() == 0 {
        true
    } else if b.len() == 0 {
        false
    } else if a[0] < b[0] {
        true
    } else if a[0] > b[0] {
        false
    } else {
        bytes_le(a.skip(1), b.skip(1))
    }
}

/// The order `bytes_le` as a closure, in the shape vstd's sorting
/// lemmas expect.
pub open spec fn bytes_order() -> spec_fn(Seq<u8>, Seq<u8>) -> bool {
    |a: Seq<u8>, b: Seq<u8>| bytes_le(a, b)
}

/// Non-strict lexicographic order on key tuples: elementwise by
/// `bytes_le`, with the first differing part deciding and a shorter
/// tuple preceding its extensions.
pub open spec fn key_le(a: Seq<Seq<u8>>, b: Seq<Seq<u8>>) -> bool
    decreases a.len(),
{
    if a.len() == 0 {
        true
    } else if b.len() == 0 {
        false
    } else if a[0] == b[0] {
        key_le(a.skip(1), b.skip(1))
    } else {
        bytes_le(a[0], b[0])
    }
}

/// The order `key_le` as a closure.
pub open spec fn key_order() -> spec_fn(Seq<Seq<u8>>, Seq<Seq<u8>>) -> bool {
    |a: Seq<Seq<u8>>, b: Seq<Seq<u8>>| key_le(a, b)
}

proof fn lemma_bytes_le_connected(a: Seq<u8>, b: Seq<u8>)
    ensures
        bytes_le(a, b) || bytes_le(b, a),
    decreases a.len(),
{
    if a.len() != 0 && b.len() != 0 && a[0] == b[0] {
        lemma_bytes_le_connected(a.skip(1), b.skip(1));
    }
}

proof fn lemma_bytes_le_antisymmetric(a: Seq<u8>, b: Seq<u8>)
    requires
        bytes_le(a, b),
        bytes_le(b, a),
    ensures
        a == b,
    decreases a.len(),
{
    if a.len() == 0 {
        assert(a =~= b);
    } else {
        lemma_bytes_le_antisymmetric(a.skip(1), b.skip(1));
        assert(a =~= seq![a[0]] + a.skip(1));
        assert(b =~= seq![b[0]] + b.skip(1));
    }
}

proof fn lemma_bytes_le_transitive(a: Seq<u8>, b: Seq<u8>, c: Seq<u8>)
    requires
        bytes_le(a, b),
        bytes_le(b, c),
    ensures
        bytes_le(a, c),
    decreases a.len(),
{
    if a.len() != 0 && b.len() != 0 && c.len() != 0 {
        if a[0] == b[0] && b[0] == c[0] {
            lemma_bytes_le_transitive(a.skip(1), b.skip(1), c.skip(1));
        }
    }
}

/// `bytes_le` is a total order: reflexive, transitive, antisymmetric
/// and strongly connected.
pub proof fn lemma_bytes_total_ordering()
    ensures
        total_ordering(bytes_order()),
{
    let leq = bytes_order();
    assert forall|a: Seq<u8>| #[trigger] leq(a, a) by {
        lemma_bytes_le_connected(a, a);
    }
    assert forall|a: Seq<u8>, b: Seq<u8>| #[trigger] leq(a, b) && #[trigger] leq(b, a) implies a == b by {
        lemma_bytes_le_antisymmetric(a, b);
    }
    assert forall|a: Seq<u8>, b: Seq<u8>, c: Seq<u8>|
        #[trigger] leq(a, b) && #[trigger] leq(b, c) implies leq(a, c) by {
        lemma_bytes_le_transitive(a, b, c);
    }
    assert forall|a: Seq<u8>, b: Seq<u8>| #[trigger] leq(a, b) || #[trigger] leq(b, a) by {
        lemma_bytes_le_connected(a, b);
    }
}

proof fn lemma_key_le_connected(a: Seq<Seq<u8>>, b: Seq<Seq<u8>>)
    ensures
        key_le(a, b) || key_le(b, a),
    decreases a.len(),
{
    if a.len() != 0 && b.len() != 0 {
        if a[0] == b[0] {
            lemma_key_le_connected(a.skip(1), b.skip(1));
        } else {
            lemma_bytes_le_connected(a[0], b[0]);
        }
    }
}

proof fn lemma_key_le_antisymmetric(a: Seq<Seq<u8>>, b: Seq<Seq<u8>>)
    requires
        key_le(a, b),
        key_le(b, a),
    ensures
        a == b,
    decreases a.len(),
{
    if a.len() == 0 {
        assert(a =~= b);
    } else {
        if a[0] == b[0] {
            lemma_key_le_antisymmetric(a.skip(1), b.skip(1));
            assert(a =~= seq![a[0]] + a.skip(1));
            assert(b =~= seq![b[0]] + b.skip(1));
        } else {
            lemma_bytes_le_antisymmetric(a[0], b[0]);
        }
    }
}

proof fn lemma_key_le_transitive(a: Seq<Seq<u8>>, b: Seq<Seq<u8>>, c: Seq<Seq<u8>>)
    requires
        key_le(a, b),
        key_le(b, c),
    ensures
        key_le(a, c),
    decreases a.len(),
{
    if a.len() != 0 && b.len() != 0 && c.len() != 0 {
        if a[0] == b[0] && b[0] == c[0] {
            lemma_key_le_transitive(a.skip(1), b.skip(1), c.skip(1));
        } else if a[0] == b[0] {
            // a[0] == b[0] and bytes_le(b[0], c[0]) decide a against c
        } else if b[0] == c[0] {
            // bytes_le(a[0], b[0]) and b[0] == c[0] decide a against c
        } else {
            lemma_bytes_le_transitive(a[0], b[0], c[0]);
            if a[0] == c[0] {
                lemma_bytes_le_antisymmetric(a[0], b[0]);
            }
        }
    }
}

/// `key_le` is a total order.
pub proof fn lemma_key_total_ordering()
    ensures
        total_ordering(key_order()),
{
    let leq = key_order();
    assert forall|a: Seq<Seq<u8>>| #[trigger] leq(a, a) by {
        lemma_key_le_connected(a, a);
    }
    assert forall|a: Seq<Seq<u8>>, b: Seq<Seq<u8>>|
        #[trigger] leq(a, b) && #[trigger] leq(b, a) implies a == b by {
        lemma_key_le_antisymmetric(a, b);
    }
    assert forall|a: Seq<Seq<u8>>, b: Seq<Seq<u8>>, c: Seq<Seq<u8>>|
        #[trigger] leq(a, b) && #[trigger] leq(b, c) implies leq(a, c) by {
        lemma_key_le_transitive(a, b, c);
    }
    assert forall|a: Seq<Seq<u8>>, b: Seq<Seq<u8>>| #[trigger] leq(a, b) || #[trigger] leq(b, a) by {
        lemma_key_le_connected(a, b);
    }
}

/// Dropping an equal first byte from both strings keeps the order.
proof fn lemma_bytes_le_skip_prefix(a: Seq<u8>, b: Seq<u8>, n: int)
    requires
        0 <= n <= a.len(),
        n <= b.len(),
        forall|j: int| 0 <= j < n ==> a[j] == b[j],
    ensures
        bytes_le(a, b) == bytes_le(a.skip(n), b.skip(n)),
    decreases n,
{
    if n == 0 {
        assert(a.skip(0) =~= a);
        assert(b.skip(0) =~= b);
    } else {
        assert forall|j: int| 0 <= j < n - 1 implies a.skip(1)[j] == b.skip(1)[j] by {
            assert(a.skip(1)[j] == a[j + 1]);
            assert(b.skip(1)[j] == b[j + 1]);
        }
        lemma_bytes_le_skip_prefix(a.skip(1), b.skip(1), n - 1);
        assert(a.skip(1).skip(n - 1) =~= a.skip(n));
        assert(b.skip(1).skip(n - 1) =~= b.skip(n));
    }
}

/// The deep view of a vector of byte vectors indexes to the plain views
/// of its elements.
pub proof fn lemma_dv_bytes(v: &Vec<Vec<u8>>, i: int)
    requires
        0 <= i < v@.len(),
    ensures
        v.deep_view().len() == v@.len(),
        v.deep_view()[i] == v@[i]@,
{
    assert(v@[i].deep_view() =~= v@[i]@);
}

/// Byte-string equality, decided by the standard elementwise comparison.
pub fn bytes_eq(a: &Vec<u8>, b: &Vec<u8>) -> (r: bool)
    ensures
        r == (a@ == b@),
{
    let r = a == b;
    proof {
        assert(<Vec<u8> as PartialEqSpec<Vec<u8>>>::obeys_eq_spec());
        if <Vec<u8> as PartialEqSpec<Vec<u8>>>::eq_spec(a, b) {
            assert(a@ =~= b@);
        }
    }
    r
}

/// Decides `bytes_le` on byte vectors.
pub fn bytes_le_exec(a: &Vec<u8>, b: &Vec<u8>) -> (r: bool)
    ensures
        r == bytes_le(a@, b@),
{
    let mut i: usize = 0;
    loop
        invariant
            i <= a.len(),
            i <= b.len(),
            forall|j: int| 0 <= j < i ==> a@[j] == b@[j],
        decreases a.len() - i,
    {
        proof {
            lemma_bytes_le_skip_prefix(a@, b@, i as int);
        }
        if i >= a.len() {
            return true;
        }
        if i >= b.len() {
            return false;
        }
        if a[i] < b[i] {
            return true;
        }
        if a[i] > b[i] {
            return false;
        }
        i = i + 1;
    }
}

/// Key-tuple equality: same number of parts, equal part by part.
pub fn key_eq(a: &Vec<Vec<u8>>, b: &Vec<Vec<u8>>) -> (r: bool)
    ensures
        r == (a.deep_view() == b.deep_view()),
{
    if a.len() != b.len() {
        proof {
            assert(a.deep_view().len() != b.deep_view().len());
        }
        return false;
    }
    let mut i: usize = 0;
    while i < a.len()
        invariant
            a.len() == b.len(),
            i <= a.len(),
            forall|j: int| 0 <= j < i ==> a.deep_view()[j] == b.deep_view()[j],
        decreases a.len() - i,
    {
        if !bytes_eq(&a[i], &b[i]) {
            proof {
                lemma_dv_bytes(a, i as int);
                lemma_dv_bytes(b, i as int);
                assert(a.deep_view()[i as int] != b.deep_view()[i as int]);
            }
            return false;
        }
        proof {
            lemma_dv_bytes(a, i as int);
            lemma_dv_bytes(b, i as int);
        }
        i = i + 1;
    }
    proof {
        assert(a.deep_view() =~= b.deep_view());
    }
    true
}

/// Dropping an equal first part from both tuples keeps the order.
proof fn lemma_key_le_skip_prefix(a: Seq<Seq<u8>>, b: Seq<Seq<u8>>, n: int)
    requires
        0 <= n <= a.len(),
        n <= b.len(),
        forall|j: int| 0 <= j < n ==> a[j] == b[j],
    ensures
        key_le(a, b) == key_le(a.skip(n), b.skip(n)),
    decreases n,
{
    if n == 0 {
        assert(a.skip(0) =~= a);
        assert(b.skip(0) =~= b);
    } else {
        assert forall|j: int| 0 <= j < n - 1 implies a.skip(1)[j] == b.skip(1)[j] by {
            assert(a.skip(1)[j] == a[j + 1]);
            assert(b.skip(1)[j] == b[j + 1]);
        }
        lemma_key_le_skip_prefix(a.skip(1), b.skip(1), n - 1);
        assert(a.skip(1).skip(n - 1) =~= a.skip(n));
        assert(b.skip(1).skip(n - 1) =~= b.skip(n));
    }
}

/// Decides `key_le` on key tuples.
pub fn key_le_exec(a: &Vec<Vec<u8>>, b: &Vec<Vec<u8>>) -> (r: bool)
    ensures
        r == key_le(a.deep_view(), b.deep_view()),
{
    let mut i: usize = 0;
    loop
        invariant
            i <= a.len(),
            i <= b.len(),
            forall|j: int| 0 <= j < i ==> a.deep_view()[j] == b.deep_view()[j],
        decreases a.len() - i,
    {
        proof {
            lemma_key_le_skip_prefix(a.deep_view(), b.deep_view(), i as int);
        }
        if i >= a.len() {
            return true;
        }
        if i >= b.len() {
            return false;
        }
        if !bytes_eq(&a[i], &b[i]) {
            proof {
                lemma_dv_bytes(a, i as int);
                lemma_dv_bytes(b, i as int);
                assert(a.deep_view().skip(i as int)[0] == a.deep_view()[i as int]);
                assert(b.deep_view().skip(i as int)[0] == b.deep_view()[i as int]);
            }
            return bytes_le_exec(&a[i], &b[i]);
        }
        proof {
            lemma_dv_bytes(a, i as int);
            lemma_dv_bytes(b, i as int);
        }
        i = i + 1;
    }
}

/// Inserting an element into a sequence inserts it into the sequence's
/// multiset.
proof fn lemma_to_multiset_insert<A>(s: Seq<A>, i: int, x: A)
    requires
        0 <= i <= s.len(),
    ensures
        s.insert(i, x).to_multiset() =~= s.to_multiset().insert(x),
{
    broadcast use group_to_multiset_ensures;
    broadcast use vstd::multiset::group_multiset_axioms;

    let pre = s.subrange(0, i);
    let post = s.subrange(i, s.len() as int);
    assert(s.insert(i, x) == pre.push(x) + post);
    assert(s =~= pre + post);
    lemma_multiset_commutative(pre.push(x), post);
    lemma_multiset_commutative(pre, post);
    assert(pre.push(x).to_multiset() =~= pre.to_multiset().insert(x));
    assert(pre.to_multiset().insert(x).add(post.to_multiset()) =~= pre.to_multiset().add(
        post.to_multiset(),
    ).insert(x));
}

/// Inserting an element between its lower and upper neighbours keeps a
/// sequence sorted.
proof fn lemma_sorted_insert<A>(s: Seq<A>, x: A, i: int, leq: spec_fn(A, A) -> bool)
    requires
        sorted_by(s, leq),
        total_ordering(leq),
        0 <= i <= s.len(),
        forall|k: int| 0 <= k < i ==> leq(#[trigger] s[k], x),
        forall|k: int| i <= k < s.len() ==> leq(x, #[trigger] s[k]),
    ensures
        sorted_by(s.insert(i, x), leq),
{
    let t = s.insert(i, x);
    s.insert_ensures(i, x);
    assert forall|p: int, q: int| 0 <= p < q < t.len() implies leq(t[p], t[q]) by {
        if p < i && q < i {
            assert(t[p] == s[p] && t[q] == s[q]);
        } else if p < i && q == i {
            assert(t[p] == s[p] && t[q] == x);
        } else if p < i && q > i {
            assert(t[p] == s[p] && t[q] == s[q - 1]);
        } else if p == i && q > i {
            assert(t[p] == x && t[q] == s[q - 1]);
        } else if p > i && q > i {
            assert(t[p] == s[p - 1] && t[q] == s[q - 1]);
        }
    }
}

/// The deep view of a vector, as a function of a plain view sequence.
pub open spec fn dv_seq<T: DeepView>(s: Seq<T>) -> Seq<T::V> {
    Seq::new(s.len(), |i: int| s[i].deep_view())
}

/// A vector's deep view is `dv_seq` of its plain view.
pub proof fn lemma_dv_seq<T: DeepView>(v: &Vec<T>)
    ensures
        v.deep_view() == dv_seq(v@),
{
    assert(v.deep_view() =~= dv_seq(v@));
}

pub proof fn lemma_dv_seq_insert<T: DeepView>(s: Seq<T>, i: int, x: T)
    requires
        0 <= i <= s.len(),
    ensures
        dv_seq(s.insert(i, x)) =~= dv_seq(s).insert(i, x.deep_view()),
{
    s.insert_ensures(i, x);
    dv_seq(s).insert_ensures(i, x.deep_view());
}

pub proof fn lemma_dv_seq_push<T: DeepView>(s: Seq<T>, x: T)
    ensures
        dv_seq(s.push(x)) =~= dv_seq(s).push(x.deep_view()),
{
}

/// Sorts a list of byte strings ascending by `bytes_le`; the result is
/// exactly the canonical sorted permutation of the input.
pub fn sort_columns(input: &Vec<Vec<u8>>) -> (r: Vec<Vec<u8>>)
    ensures
        r.deep_view() == input.deep_view().sort_by(bytes_order()),
        sorted_by(r.deep_view(), bytes_order()),
        r.deep_view().to_multiset() == input.deep_view().to_multiset(),
{
    proof {
        lemma_bytes_total_ordering();
        broadcast use group_to_multiset_ensures;
        broadcast use vec_clone_deep_view_proof;

    }
    let mut out: Vec<Vec<u8>> = Vec::new();
    let mut n: usize = 0;
    proof {
        assert(out.deep_view() =~= Seq::<Seq<u8>>::empty());
        assert(input.deep_view().take(0) =~= Seq::<Seq<u8>>::empty());
        assert(out.deep_view().to_multiset() =~= input.deep_view().take(0).to_multiset());
    }
    while n < input.len()
        invariant
            n <= input.len(),
            input.deep_view().len() == input@.len(),
            sorted_by(out.deep_view(), bytes_order()),
            out.deep_view().to_multiset() == input.deep_view().take(n as int).to_multiset(),
        decreases input.len() - n,
    {
        let x = input[n].clone();
        proof {
            broadcast use vec_clone_deep_view_proof;

            lemma_dv_bytes(input, n as int);
            assert(x@ =~= x.deep_view());
            assert(x@ == input.deep_view()[n as int]);
        }
        let mut j: usize = 0;
        while j < out.len() && bytes_le_exec(&out[j], &x)
            invariant
                j <= out.len(),
                forall|k: int| 0 <= k < j ==> bytes_le(#[trigger] out.deep_view()[k], x@),
            decreases out.len() - j,
        {
            proof {
                lemma_dv_bytes(&out, j as int);
            }
            j = j + 1;
        }
        proof {
            lemma_bytes_total_ordering();
            if j < out.len() {
                lemma_dv_bytes(&out, j as int);
            }
            assert forall|k: int| j <= k < out@.len() implies bytes_le(
                x@,
                #[trigger] out.deep_view()[k],
            ) by {
                lemma_bytes_le_connected(out.deep_view()[j as int], x@);
                assert(bytes_le(x@, out.deep_view()[j as int]));
                if k > j {
                    assert(bytes_order()(out.deep_view()[j as int], out.deep_view()[k]));
                    lemma_bytes_le_transitive(x@, out.deep_view()[j as int], out.deep_view()[k]);
                }
            }
        }
        let ghost pre_view = out@;
        let ghost pre_dv = out.deep_view();
        out.insert(j, x);
        proof {
            lemma_dv_seq(&out);
            assert(pre_dv == dv_seq(pre_view));
            lemma_dv_seq_insert(pre_view, j as int, x);
            assert(out.deep_view() == dv_seq(pre_view.insert(j as int, x)));
            assert(out.deep_view() =~= pre_dv.insert(j as int, x@));
            lemma_sorted_insert(pre_dv, x@, j as int, bytes_order());
            lemma_to_multiset_insert(pre_dv, j as int, x@);
            broadcast use group_to_multiset_ensures;

            assert(input.deep_view().take(n as int + 1) =~= input.deep_view().take(n as int).push(
                input.deep_view()[n as int],
            ));
            assert(input.deep_view().take(n as int + 1).to_multiset() =~= input.deep_view().take(
                n as int,
            ).to_multiset().insert(x@));
        }
        n = n + 1;
    }
    proof {
        assert(input.deep_view().take(input@.len() as int) =~= input.deep_view());
        input.deep_view().lemma_sort_by_ensures(bytes_order());
        lemma_sorted_unique(
            out.deep_view(),
            input.deep_view().sort_by(bytes_order()),
            bytes_order(),
        );
    }
    out
}

/// Sorts a list of key tuples ascending by `key_le`; the result is
/// exactly the canonical sorted permutation of the input.
pub fn sort_keys(input: &Vec<Vec<Vec<u8>>>) -> (r: Vec<Vec<Vec<u8>>>)
    ensures
        r.deep_view() == input.deep_view().sort_by(key_order()),
        sorted_by(r.deep_view(), key_order()),
        r.deep_view().to_multiset() == input.deep_view().to_multiset(),
{
    proof {
        lemma_key_total_ordering();
    }
    let mut out: Vec<Vec<Vec<u8>>> = Vec::new();
    let mut n: usize = 0;
    proof {
        assert(out.deep_view() =~= Seq::<Seq<Seq<u8>>>::empty());
        assert(input.deep_view().take(0) =~= Seq::<Seq<Seq<u8>>>::empty());
        broadcast use group_to_multiset_ensures;

        assert(out.deep_view().to_multiset() =~= input.deep_view().take(0).to_multiset());
    }
    while n < input.len()
        invariant
            n <= input.len(),
            input.deep_view().len() == input@.len(),
            sorted_by(out.deep_view(), key_order()),
            out.deep_view().to_multiset() == input.deep_view().take(n as int).to_multiset(),
        decreases input.len() - n,
    {
        let x = input[n].clone();
        proof {
            broadcast use vec_clone_deep_view_proof;

            lemma_dv_seq(input);
            assert(x.deep_view() == input.deep_view()[n as int]);
        }
        let mut j: usize = 0;
        while j < out.len() && key_le_exec(&out[j], &x)
            invariant
                j <= out.len(),
                forall|k: int| 0 <= k < j ==> key_le(#[trigger] out.deep_view()[k], x.deep_view()),
            decreases out.len() - j,
        {
            proof {
                lemma_dv_seq(&out);
            }
            j = j + 1;
        }
        proof {
            lemma_key_total_ordering();
            lemma_dv_seq(&out);
            assert forall|k: int| j <= k < out@.len() implies key_le(
                x.deep_view(),
                #[trigger] out.deep_view()[k],
            ) by {
                lemma_key_le_connected(out.deep_view()[j as int], x.deep_view());
                assert(key_le(x.deep_view(), out.deep_view()[j as int]));
                if k > j {
                    assert(key_order()(out.deep_view()[j as int], out.deep_view()[k]));
                    lemma_key_le_transitive(
                        x.deep_view(),
                        out.deep_view()[j as int],
                        out.deep_view()[k],
                    );
                }
            }
        }
        let ghost pre_view = out@;
        let ghost pre_dv = out.deep_view();
        out.insert(j, x);
        proof {
            lemma_dv_seq(&out);
            assert(pre_dv == dv_seq(pre_view));
            lemma_dv_seq_insert(pre_view, j as int, x);
            assert(out.deep_view() =~= pre_dv.insert(j as int, x.deep_view()));
            lemma_sorted_insert(pre_dv, x.deep_view(), j as int, key_order());
            lemma_to_multiset_insert(pre_dv, j as int, x.deep_view());
            broadcast use group_to_multiset_ensures;

            assert(input.deep_view().take(n as int + 1) =~= input.deep_view().take(n as int).push(
                input.deep_view()[n as int],
            ));
            assert(input.deep_view().take(n as int + 1).to_multiset() =~= input.deep_view().take(
                n as int,
            ).to_multiset().insert(x.deep_view()));
        }
        n = n + 1;
    }
    proof {
        assert(input.deep_view().take(input@.len() as int) =~= input.deep_view());
        input.deep_view().lemma_sort_by_ensures(key_order());
        lemma_sorted_unique(
            out.deep_view(),
            input.deep_view().sort_by(key_order()),
            key_order(),
        );
    }
    out
}

} // verus!
