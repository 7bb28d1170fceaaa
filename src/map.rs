use vstd::prelude::*;
use vstd::std_specs::cmp::PartialEqSpec;
use crate::symbol::{Symbol, bytes_lt, lemma_bytes_lt_transitive, lemma_bytes_lt_asymmetric};

verus! {

/// Misuse of the map library.
#[derive(Clone, Copy, Debug, PartialEq, Eq, Structural)]
pub enum MapError {
    /// A key-aligned operation was given two maps whose key sets differ.
    KeysetMismatch,
    /// The tree is too tall for its height to be counted in a `u32`.
    Overflow,
}

struct Node<V> {
    key: Symbol,
    value: V,
    left: Option<Box<Node<V>>>,
    right: Option<Box<Node<V>>>,
    height: u32,
}

/// Height of a tree; the empty tree has height 0.
spec fn height<V>(t: Option<Box<Node<V>>>) -> nat
    decreases t,
{
    match t {
        None => 0,
        Some(n) => {
            let hl = height(n.left);
            let hr = height(n.right);
            if hl >= hr {
                hl + 1
            } else {
                hr + 1
            }
        },
    }
}

/// The bindings of a tree, as a map from key bytes to values.
spec fn content<V>(t: Option<Box<Node<V>>>) -> Map<Seq<u8>, V>
    decreases t,
{
    match t {
        None => Map::empty(),
        Some(n) => content(n.left).union_prefer_right(content(n.right)).insert(n.key.key(), n.value),
    }
}

/// The bindings of a tree, in order.
spec fn bindings<V>(t: Option<Box<Node<V>>>) -> Seq<(Symbol, V)>
    decreases t,
{
    match t {
        None => Seq::empty(),
        Some(n) => bindings(n.left).push((n.key, n.value)) + bindings(n.right),
    }
}

spec fn all_below<V>(t: Option<Box<Node<V>>>, k: Seq<u8>) -> bool {
    forall|q: Seq<u8>| #[trigger] content(t).dom().contains(q) ==> bytes_lt(q, k)
}

spec fn all_above<V>(t: Option<Box<Node<V>>>, k: Seq<u8>) -> bool {
    forall|q: Seq<u8>| #[trigger] content(t).dom().contains(q) ==> bytes_lt(k, q)
}

/// Search-tree order, cached heights, and AVL balance: at every node the
/// heights of the two subtrees differ by at most 2.
spec fn wf<V>(t: Option<Box<Node<V>>>) -> bool
    decreases t,
{
    match t {
        None => true,
        Some(n) => {
            &&& wf(n.left)
            &&& wf(n.right)
            &&& n.height as nat == height(t)
            &&& height(n.left) <= height(n.right) + 2
            &&& height(n.right) <= height(n.left) + 2
            &&& all_below(n.left, n.key.key())
            &&& all_above(n.right, n.key.key())
        },
    }
}

/// Balance alone: at every node the subtrees' heights differ by at most 2.
spec fn balanced<V>(t: Option<Box<Node<V>>>) -> bool
    decreases t,
{
    match t {
        None => true,
        Some(n) => {
            &&& balanced(n.left)
            &&& balanced(n.right)
            &&& height(n.left) <= height(n.right) + 2
            &&& height(n.right) <= height(n.left) + 2
        },
    }
}

proof fn lemma_wf_balanced<V>(t: Option<Box<Node<V>>>)
    requires
        wf(t),
    ensures
        balanced(t),
    decreases t,
{
    if let Some(n) = t {
        lemma_wf_balanced(n.left);
        lemma_wf_balanced(n.right);
    }
}

proof fn lemma_below_trans<V>(t: Option<Box<Node<V>>>, a: Seq<u8>, b: Seq<u8>)
    requires
        all_below(t, a),
        bytes_lt(a, b),
    ensures
        all_below(t, b),
{
    assert forall|q: Seq<u8>| #[trigger] content(t).dom().contains(q) implies bytes_lt(q, b) by {
        lemma_bytes_lt_transitive(q, a, b);
    }
}

proof fn lemma_above_trans<V>(t: Option<Box<Node<V>>>, a: Seq<u8>, b: Seq<u8>)
    requires
        all_above(t, b),
        bytes_lt(a, b),
    ensures
        all_above(t, a),
{
    assert forall|q: Seq<u8>| #[trigger] content(t).dom().contains(q) implies bytes_lt(a, q) by {
        lemma_bytes_lt_transitive(a, b, q);
    }
}

/// A key below every key of `t` is not one of them.
proof fn lemma_below_absent<V>(t: Option<Box<Node<V>>>, k: Seq<u8>)
    requires
        all_above(t, k),
    ensures
        !content(t).dom().contains(k),
{
    if content(t).dom().contains(k) {
        lemma_bytes_lt_asymmetric(k, k);
    }
}

proof fn lemma_above_absent<V>(t: Option<Box<Node<V>>>, k: Seq<u8>)
    requires
        all_below(t, k),
    ensures
        !content(t).dom().contains(k),
{
    if content(t).dom().contains(k) {
        lemma_bytes_lt_asymmetric(k, k);
    }
}

fn tree_height<V>(t: &Option<Box<Node<V>>>) -> (r: u32)
    requires
        wf(*t),
    ensures
        r as nat == height(*t),
{
    match t {
        None => 0,
        Some(n) => n.height,
    }
}

/// Joins two subtrees whose heights differ by at most 2 under a new root.
fn create<V>(l: Option<Box<Node<V>>>, key: Symbol, value: V, r: Option<Box<Node<V>>>) -> (t: Box<
    Node<V>,
>)
    requires
        wf(l),
        wf(r),
        height(l) <= height(r) + 2,
        height(r) <= height(l) + 2,
        height(l) < u32::MAX,
        height(r) < u32::MAX,
        all_below(l, key.key()),
        all_above(r, key.key()),
    ensures
        wf(Some(t)),
        height(Some(t)) == 1 + if height(l) >= height(r) {
            height(l)
        } else {
            height(r)
        },
        content(Some(t)) == content(l).union_prefer_right(content(r)).insert(key.key(), value),
        bindings(Some(t)) == bindings(l).push((key, value)) + bindings(r),
{
    let hl = tree_height(&l);
    let hr = tree_height(&r);
    let h = if hl >= hr {
        hl + 1
    } else {
        hr + 1
    };
    Box::new(Node { key, value, left: l, right: r, height: h })
}

/// The three ways a double rotation regroups four subtrees and three roots
/// describe the same bindings.
proof fn lemma_regroup_content<V>(
    a: Map<Seq<u8>, V>,
    b: Map<Seq<u8>, V>,
    c: Map<Seq<u8>, V>,
    d: Map<Seq<u8>, V>,
    k1: Seq<u8>,
    v1: V,
    k2: Seq<u8>,
    v2: V,
    k3: Seq<u8>,
    v3: V,
)
    requires
        !b.dom().contains(k1),
        !c.dom().contains(k1),
        !d.dom().contains(k1),
        !a.dom().contains(k2),
        !d.dom().contains(k2),
        !a.dom().contains(k3),
        !b.dom().contains(k3),
        !c.dom().contains(k3),
        k1 != k2,
        k2 != k3,
        k1 != k3,
    ensures
        ({
            let lhs = a.union_prefer_right(b).insert(k1, v1).union_prefer_right(
                c.union_prefer_right(d).insert(k3, v3),
            ).insert(k2, v2);
            let mid = b.union_prefer_right(c).insert(k2, v2);
            &&& lhs == a.union_prefer_right(mid).insert(k1, v1).union_prefer_right(d).insert(k3, v3)
            &&& lhs == a.union_prefer_right(mid.union_prefer_right(d).insert(k3, v3)).insert(k1, v1)
        }),
{
    let lhs = a.union_prefer_right(b).insert(k1, v1).union_prefer_right(
        c.union_prefer_right(d).insert(k3, v3),
    ).insert(k2, v2);
    let mid = b.union_prefer_right(c).insert(k2, v2);
    assert(lhs =~= a.union_prefer_right(mid).insert(k1, v1).union_prefer_right(d).insert(k3, v3));
    assert(lhs =~= a.union_prefer_right(mid.union_prefer_right(d).insert(k3, v3)).insert(k1, v1));
}

proof fn lemma_regroup_bindings<T>(a: Seq<T>, b: Seq<T>, c: Seq<T>, d: Seq<T>, x1: T, x2: T, x3: T)
    ensures
        ({
            let lhs = (a.push(x1) + b).push(x2) + (c.push(x3) + d);
            &&& lhs == (a.push(x1) + (b.push(x2) + c)).push(x3) + d
            &&& lhs == a.push(x1) + ((b.push(x2) + c).push(x3) + d)
        }),
{
    let lhs = (a.push(x1) + b).push(x2) + (c.push(x3) + d);
    assert(lhs =~= (a.push(x1) + (b.push(x2) + c)).push(x3) + d);
    assert(lhs =~= a.push(x1) + ((b.push(x2) + c).push(x3) + d));
}

/// Rebalances a tree whose left subtree `l` is three levels taller than `r`.
fn rotate_from_left<V>(l: Box<Node<V>>, key: Symbol, value: V, r: Option<Box<Node<V>>>) -> (t: Box<
    Node<V>,
>)
    requires
        wf(Some(l)),
        wf(r),
        height(Some(l)) == height(r) + 3,
        height(Some(l)) < u32::MAX,
        all_below(Some(l), key.key()),
        all_above(r, key.key()),
    ensures
        wf(Some(t)),
        height(Some(l)) <= height(Some(t)) <= height(Some(l)) + 1,
        content(Some(t)) == content(Some(l)).union_prefer_right(content(r)).insert(key.key(), value),
        bindings(Some(t)) == bindings(Some(l)).push((key, value)) + bindings(r),
{
    let ghost lt = Some(l);
    let Node { key: lk, value: lv, left: ll, right: lr, height: _ } = *l;
    let ghost kk = key.key();
    let ghost lkk = lk.key();
    proof {
        assert(content(lt).dom().contains(lkk));
        lemma_bytes_lt_asymmetric(lkk, kk);
        lemma_above_trans(r, lkk, kk);
        lemma_below_absent(r, lkk);
        lemma_below_trans(ll, lkk, kk);
        lemma_above_absent(ll, kk);
        assert forall|q: Seq<u8>| #[trigger] content(lr).dom().contains(q) implies bytes_lt(q, kk) by {
            assert(content(lt).dom().contains(q));
        }
        assert(bindings(lt) == bindings(ll).push((lk, lv)) + bindings(lr));
    }
    if tree_height(&ll) >= tree_height(&lr) {
        let inner = create(lr, key, value, r);
        proof {
            assert(all_above(Some(inner), lkk));
        }
        let t = create(ll, lk, lv, Some(inner));
        proof {
            assert(content(Some(t)) =~= content(lt).union_prefer_right(content(r)).insert(kk, value));
            assert(bindings(Some(t)) =~= bindings(lt).push((key, value)) + bindings(r));
        }
        t
    } else {
        rotate_from_left_double(ll, lk, lv, lr.unwrap(), key, value, r)
    }
}

/// The double rotation of `rotate_from_left`, when the inner grandchild is the taller.
fn rotate_from_left_double<V>(
    ll: Option<Box<Node<V>>>,
    lk: Symbol,
    lv: V,
    lr: Box<Node<V>>,
    key: Symbol,
    value: V,
    r: Option<Box<Node<V>>>,
) -> (t: Box<Node<V>>)
    requires
        wf(ll),
        wf(Some(lr)),
        wf(r),
        height(ll) < height(Some(lr)),
        height(Some(lr)) <= height(ll) + 2,
        height(Some(lr)) == height(r) + 2,
        height(Some(lr)) < u32::MAX,
        all_below(ll, lk.key()),
        all_above(Some(lr), lk.key()),
        bytes_lt(lk.key(), key.key()),
        all_below(ll, key.key()),
        all_below(Some(lr), key.key()),
        all_above(r, key.key()),
        all_above(r, lk.key()),
    ensures
        wf(Some(t)),
        height(Some(t)) == height(Some(lr)) + 1,
        content(Some(t)) == content(ll).union_prefer_right(content(Some(lr))).insert(
            lk.key(),
            lv,
        ).union_prefer_right(content(r)).insert(key.key(), value),
        bindings(Some(t)) == (bindings(ll).push((lk, lv)) + bindings(Some(lr))).push((key, value))
            + bindings(r),
{
    let ghost lrt = Some(lr);
    let Node { key: lrk, value: lrv, left: lrl, right: lrr, height: _ } = *lr;
    let ghost kk = key.key();
    let ghost lkk = lk.key();
    let ghost lrkk = lrk.key();
    proof {
        assert(content(lrt).dom().contains(lrkk));
        lemma_bytes_lt_asymmetric(lkk, lrkk);
        lemma_bytes_lt_asymmetric(lrkk, kk);
        lemma_bytes_lt_asymmetric(lkk, kk);
        assert forall|q: Seq<u8>| #[trigger] content(lrl).dom().contains(q) implies bytes_lt(lkk, q)
            && bytes_lt(q, kk) by {
            assert(content(lrt).dom().contains(q));
        }
        assert forall|q: Seq<u8>| #[trigger] content(lrr).dom().contains(q) implies bytes_lt(lkk, q)
            && bytes_lt(q, kk) by {
            assert(content(lrt).dom().contains(q));
        }
        lemma_below_trans(ll, lkk, lrkk);
        lemma_above_trans(r, lrkk, kk);
        lemma_below_absent(r, lrkk);
        lemma_above_absent(ll, lrkk);
        lemma_below_absent(lrr, lkk);
        lemma_above_absent(lrl, kk);
        lemma_below_absent(r, lkk);
        lemma_above_absent(ll, kk);
        lemma_below_absent(lrl, lkk);
        lemma_above_absent(lrr, kk);
        assert(bindings(lrt) == bindings(lrl).push((lrk, lrv)) + bindings(lrr));
    }
    let a = create(ll, lk, lv, lrl);
    let b = create(lrr, key, value, r);
    let t = create(Some(a), lrk, lrv, Some(b));
    proof {
        lemma_regroup_content(content(ll), content(lrl), content(lrr), content(r), lkk, lv, lrkk, lrv, kk, value);
        lemma_regroup_bindings(bindings(ll), bindings(lrl), bindings(lrr), bindings(r), (lk, lv), (lrk, lrv), (key, value));
    }
    t
}

/// Rebalances a tree whose right subtree `r` is three levels taller than `l`.
fn rotate_from_right<V>(l: Option<Box<Node<V>>>, key: Symbol, value: V, r: Box<Node<V>>) -> (t: Box<
    Node<V>,
>)
    requires
        wf(l),
        wf(Some(r)),
        height(Some(r)) == height(l) + 3,
        height(Some(r)) < u32::MAX,
        all_below(l, key.key()),
        all_above(Some(r), key.key()),
    ensures
        wf(Some(t)),
        height(Some(r)) <= height(Some(t)) <= height(Some(r)) + 1,
        content(Some(t)) == content(l).union_prefer_right(content(Some(r))).insert(key.key(), value),
        bindings(Some(t)) == bindings(l).push((key, value)) + bindings(Some(r)),
{
    let ghost rt = Some(r);
    let Node { key: rk, value: rv, left: rl, right: rr, height: _ } = *r;
    let ghost kk = key.key();
    let ghost rkk = rk.key();
    proof {
        assert(content(rt).dom().contains(rkk));
        lemma_bytes_lt_asymmetric(kk, rkk);
        lemma_below_trans(l, kk, rkk);
        lemma_above_absent(l, rkk);
        lemma_above_trans(rr, kk, rkk);
        lemma_below_absent(rr, kk);
        assert forall|q: Seq<u8>| #[trigger] content(rl).dom().contains(q) implies bytes_lt(kk, q) by {
            assert(content(rt).dom().contains(q));
        }
        assert(bindings(rt) == bindings(rl).push((rk, rv)) + bindings(rr));
    }
    if tree_height(&rr) >= tree_height(&rl) {
        let inner = create(l, key, value, rl);
        proof {
            assert(all_below(Some(inner), rkk));
        }
        let t = create(Some(inner), rk, rv, rr);
        proof {
            assert(content(Some(t)) =~= content(l).union_prefer_right(content(rt)).insert(kk, value));
            assert(bindings(Some(t)) =~= bindings(l).push((key, value)) + bindings(rt));
        }
        t
    } else {
        rotate_from_right_double(l, key, value, rl.unwrap(), rk, rv, rr)
    }
}

/// The double rotation of `rotate_from_right`, when the inner grandchild is the taller.
fn rotate_from_right_double<V>(
    l: Option<Box<Node<V>>>,
    key: Symbol,
    value: V,
    rl: Box<Node<V>>,
    rk: Symbol,
    rv: V,
    rr: Option<Box<Node<V>>>,
) -> (t: Box<Node<V>>)
    requires
        wf(l),
        wf(Some(rl)),
        wf(rr),
        height(rr) < height(Some(rl)),
        height(Some(rl)) <= height(rr) + 2,
        height(Some(rl)) == height(l) + 2,
        height(Some(rl)) < u32::MAX,
        all_below(Some(rl), rk.key()),
        all_above(rr, rk.key()),
        bytes_lt(key.key(), rk.key()),
        all_below(l, key.key()),
        all_below(l, rk.key()),
        all_above(Some(rl), key.key()),
        all_above(rr, key.key()),
    ensures
        wf(Some(t)),
        height(Some(t)) == height(Some(rl)) + 1,
        content(Some(t)) == content(l).union_prefer_right(
            content(Some(rl)).union_prefer_right(content(rr)).insert(rk.key(), rv),
        ).insert(key.key(), value),
        bindings(Some(t)) == bindings(l).push((key, value)) + (bindings(Some(rl)).push((rk, rv))
            + bindings(rr)),
{
    let ghost rlt = Some(rl);
    let Node { key: rlk, value: rlv, left: rll, right: rlr, height: _ } = *rl;
    let ghost kk = key.key();
    let ghost rkk = rk.key();
    let ghost rlkk = rlk.key();
    proof {
        assert(content(rlt).dom().contains(rlkk));
        lemma_bytes_lt_asymmetric(kk, rlkk);
        lemma_bytes_lt_asymmetric(rlkk, rkk);
        lemma_bytes_lt_asymmetric(kk, rkk);
        assert forall|q: Seq<u8>| #[trigger] content(rlr).dom().contains(q) implies bytes_lt(q, rkk)
            && bytes_lt(kk, q) by {
            assert(content(rlt).dom().contains(q));
        }
        assert forall|q: Seq<u8>| #[trigger] content(rll).dom().contains(q) implies bytes_lt(kk, q)
            && bytes_lt(q, rkk) by {
            assert(content(rlt).dom().contains(q));
        }
        lemma_below_trans(l, kk, rlkk);
        lemma_above_trans(rr, rlkk, rkk);
        lemma_above_absent(l, rlkk);
        lemma_below_absent(rr, rlkk);
        lemma_above_absent(rll, rkk);
        lemma_below_absent(rlr, kk);
        lemma_above_absent(l, rkk);
        lemma_below_absent(rr, kk);
        lemma_above_absent(rlr, rkk);
        lemma_below_absent(rll, kk);
        assert(bindings(rlt) == bindings(rll).push((rlk, rlv)) + bindings(rlr));
    }
    let a = create(l, key, value, rll);
    let b = create(rlr, rk, rv, rr);
    let t = create(Some(a), rlk, rlv, Some(b));
    proof {
        lemma_regroup_content(content(l), content(rll), content(rlr), content(rr), kk, value, rlkk, rlv, rkk, rv);
        lemma_regroup_bindings(bindings(l), bindings(rll), bindings(rlr), bindings(rr), (key, value), (rlk, rlv), (rk, rv));
    }
    t
}

/// Joins two subtrees whose heights differ by at most 3 under a new root,
/// rotating once or twice to restore the balance.
fn bal<V>(l: Option<Box<Node<V>>>, key: Symbol, value: V, r: Option<Box<Node<V>>>) -> (t: Box<
    Node<V>,
>)
    requires
        wf(l),
        wf(r),
        height(l) <= height(r) + 3,
        height(r) <= height(l) + 3,
        height(l) < u32::MAX,
        height(r) < u32::MAX,
        all_below(l, key.key()),
        all_above(r, key.key()),
    ensures
        wf(Some(t)),
        ({
            let m = if height(l) >= height(r) {
                height(l)
            } else {
                height(r)
            };
            &&& m <= height(Some(t)) <= m + 1
            &&& (height(l) <= height(r) + 2 && height(r) <= height(l) + 2) ==> height(Some(t))
                == m + 1
        }),
        content(Some(t)) == content(l).union_prefer_right(content(r)).insert(key.key(), value),
        bindings(Some(t)) == bindings(l).push((key, value)) + bindings(r),
{
    let hl = tree_height(&l);
    let hr = tree_height(&r);
    if hl > hr && hl - hr > 2 {
        rotate_from_left(l.unwrap(), key, value, r)
    } else if hr > hl && hr - hl > 2 {
        rotate_from_right(l, key, value, r.unwrap())
    } else {
        create(l, key, value, r)
    }
}

proof fn lemma_contains_split<T>(a: Seq<T>, x: T, b: Seq<T>)
    ensures
        forall|p: T| #[trigger] (a.push(x) + b).contains(p) <==> (a.contains(p) || p == x || b.contains(p)),
{
    let s = a.push(x) + b;
    assert forall|p: T| #[trigger] s.contains(p) <==> (a.contains(p) || p == x || b.contains(p)) by {
        if s.contains(p) {
            let i = choose|i: int| 0 <= i < s.len() && s[i] == p;
            if i < a.len() {
                assert(a[i] == p);
            } else if i > a.len() {
                assert(b[i - a.len() - 1] == p);
            }
        }
        if a.contains(p) {
            let i = choose|i: int| 0 <= i < a.len() && a[i] == p;
            assert(s[i] == p);
        }
        if p == x {
            assert(s[a.len() as int] == p);
        }
        if b.contains(p) {
            let i = choose|i: int| 0 <= i < b.len() && b[i] == p;
            assert(s[a.len() + 1 + i] == p);
        }
    }
}

/// Inserts a binding; an existing binding of the same key keeps its symbol
/// and takes the new value.
fn add_tree<V>(t: Option<Box<Node<V>>>, key: &Symbol, value: V) -> (r: Box<Node<V>>)
    requires
        wf(t),
        height(t) < u32::MAX,
    ensures
        wf(Some(r)),
        content(Some(r)) == content(t).insert(key.key(), value),
        height(t) <= height(Some(r)) <= height(t) + 1,
        !content(t).dom().contains(key.key()) ==> bindings(Some(r)).contains((*key, value)),
        forall|p: (Symbol, V)|
            #[trigger] bindings(t).contains(p) && p.0.key() != key.key() ==> bindings(Some(r)).contains(p),
    decreases t,
{
    match t {
        None => {
            let r = create(None, key.duplicate(), value, None);
            proof {
                lemma_contains_split(Seq::<(Symbol, V)>::empty(), (*key, value), Seq::<(Symbol, V)>::empty());
                assert(bindings(Some(r)) == Seq::<(Symbol, V)>::empty().push((*key, value)) + Seq::<(Symbol, V)>::empty());
            }
            r
        },
        Some(n) => {
            let ghost tt = Some(n);
            let Node { key: nk, value: nv, left, right, height } = *n;
            let ghost kk = key.key();
            let ghost nkk = nk.key();
            match key.compare(&nk) {
                core::cmp::Ordering::Equal => {
                    let r = Box::new(Node { key: nk, value, left, right, height });
                    proof {
                        assert(content(Some(r)) =~= content(tt).insert(kk, value));
                        lemma_contains_split(bindings(left), (nk, nv), bindings(right));
                        lemma_contains_split(bindings(left), (nk, value), bindings(right));
                        assert(content(tt).dom().contains(kk));
                    }
                    r
                },
                core::cmp::Ordering::Less => {
                    let nl = add_tree(left, key, value);
                    proof {
                        lemma_above_trans(right, kk, nkk);
                        lemma_below_absent(right, kk);
                        lemma_bytes_lt_asymmetric(kk, nkk);
                    }
                    let r = bal(Some(nl), nk, nv, right);
                    proof {
                        assert(content(Some(r)) =~= content(tt).insert(kk, value));
                        lemma_contains_split(bindings(left), (nk, nv), bindings(right));
                        lemma_contains_split(bindings(Some(nl)), (nk, nv), bindings(right));
                        if !content(tt).dom().contains(kk) {
                            assert(!content(left).dom().contains(kk));
                        }
                    }
                    r
                },
                core::cmp::Ordering::Greater => {
                    let nr = add_tree(right, key, value);
                    proof {
                        lemma_below_trans(left, nkk, kk);
                        lemma_above_absent(left, kk);
                        lemma_bytes_lt_asymmetric(nkk, kk);
                    }
                    let r = bal(left, nk, nv, Some(nr));
                    proof {
                        assert(content(Some(r)) =~= content(tt).insert(kk, value));
                        lemma_contains_split(bindings(left), (nk, nv), bindings(right));
                        lemma_contains_split(bindings(left), (nk, nv), bindings(Some(nr)));
                        if !content(tt).dom().contains(kk) {
                            assert(!content(right).dom().contains(kk));
                        }
                    }
                    r
                },
            }
        },
    }
}

fn find_tree<'a, V>(t: &'a Option<Box<Node<V>>>, key: &Symbol) -> (r: Option<&'a V>)
    requires
        wf(*t),
    ensures
        match r {
            Some(v) => content(*t).dom().contains(key.key()) && *v == content(*t)[key.key()],
            None => !content(*t).dom().contains(key.key()),
        },
    decreases *t,
{
    match t {
        None => None,
        Some(n) => {
            match key.compare(&n.key) {
                core::cmp::Ordering::Equal => Some(&n.value),
                core::cmp::Ordering::Less => {
                    proof {
                        lemma_above_trans(n.right, key.key(), n.key.key());
                        lemma_below_absent(n.right, key.key());
                        lemma_bytes_lt_asymmetric(key.key(), n.key.key());
                    }
                    find_tree(&n.left, key)
                },
                core::cmp::Ordering::Greater => {
                    proof {
                        lemma_below_trans(n.left, n.key.key(), key.key());
                        lemma_above_absent(n.left, key.key());
                        lemma_bytes_lt_asymmetric(n.key.key(), key.key());
                    }
                    find_tree(&n.right, key)
                },
            }
        },
    }
}

/// Detaches the binding with the smallest key.
fn remove_min_binding<V>(n: Box<Node<V>>) -> (r: (Option<Box<Node<V>>>, Symbol, V))
    requires
        wf(Some(n)),
    ensures
        wf(r.0),
        content(Some(n)).dom().contains(r.1.key()),
        content(Some(n))[r.1.key()] == r.2,
        content(r.0) == content(Some(n)).remove(r.1.key()),
        all_above(r.0, r.1.key()),
        height(Some(n)) <= height(r.0) + 1,
        height(r.0) <= height(Some(n)),
        bindings(Some(n)) == seq![(r.1, r.2)] + bindings(r.0),
    decreases n,
{
    let ghost tt = Some(n);
    let Node { key, value, left, right, height: _ } = *n;
    let ghost kk = key.key();
    let ghost left0 = left;
    match left {
        None => {
            proof {
                assert(content(left0) == Map::<Seq<u8>, V>::empty());
                assert(bindings(left0) == Seq::<(Symbol, V)>::empty());
                lemma_below_absent(right, kk);
                assert(content(right) =~= content(tt).remove(kk));
                assert(bindings(tt) =~= seq![(key, value)] + bindings(right));
            }
            (right, key, value)
        },
        Some(ln) => {
            let ghost lt = Some(ln);
            let (rest, mk, mv) = remove_min_binding(ln);
            let ghost mkk = mk.key();
            proof {
                assert(content(lt).dom().contains(mkk));
                lemma_bytes_lt_asymmetric(mkk, kk);
                lemma_above_trans(right, mkk, kk);
                lemma_below_absent(right, mkk);
                assert(all_below(rest, kk));
            }
            let b = bal(rest, key, value, right);
            proof {
                assert(content(Some(b)) =~= content(tt).remove(mkk));
                assert(all_above(Some(b), mkk));
                assert(bindings(tt) =~= seq![(mk, mv)] + bindings(Some(b)));
            }
            (Some(b), mk, mv)
        },
    }
}

/// Concatenates two trees whose heights differ by at most 2 and whose keys
/// lie on either side of `pivot`.
fn merge<V>(l: Option<Box<Node<V>>>, r: Option<Box<Node<V>>>, Ghost(pivot): Ghost<Seq<u8>>) -> (t:
    Option<Box<Node<V>>>)
    requires
        wf(l),
        wf(r),
        height(l) <= height(r) + 2,
        height(r) <= height(l) + 2,
        height(l) < u32::MAX,
        height(r) < u32::MAX,
        all_below(l, pivot),
        all_above(r, pivot),
    ensures
        wf(t),
        content(t) == content(l).union_prefer_right(content(r)),
        ({
            let m = if height(l) >= height(r) {
                height(l)
            } else {
                height(r)
            };
            m <= height(t) <= m + 1
        }),
{
    match r {
        None => {
            assert(content(l).union_prefer_right(content(r)) =~= content(l));
            l
        },
        Some(rn) => {
            let ghost rt = Some(rn);
            let (rest, mk, mv) = remove_min_binding(rn);
            let ghost mkk = mk.key();
            proof {
                lemma_below_trans(l, pivot, mkk);
                lemma_above_absent(l, mkk);
            }
            let b = bal(l, mk, mv, rest);
            proof {
                assert(content(Some(b)) =~= content(l).union_prefer_right(content(rt)));
            }
            Some(b)
        },
    }
}

fn remove_tree<V>(t: Option<Box<Node<V>>>, key: &Symbol) -> (r: Option<Box<Node<V>>>)
    requires
        wf(t),
    ensures
        wf(r),
        content(r) == content(t).remove(key.key()),
        height(t) <= height(r) + 1,
        height(r) <= height(t),
    decreases t,
{
    match t {
        None => {
            assert(content(t).remove(key.key()) =~= content(t));
            None
        },
        Some(n) => {
            let ghost tt = Some(n);
            let Node { key: nk, value: nv, left, right, height: _ } = *n;
            let ghost kk = key.key();
            let ghost nkk = nk.key();
            match key.compare(&nk) {
                core::cmp::Ordering::Equal => {
                    proof {
                        lemma_above_absent(left, nkk);
                        lemma_below_absent(right, nkk);
                    }
                    let m = merge(left, right, Ghost(nkk));
                    proof {
                        assert(content(m) =~= content(tt).remove(kk));
                    }
                    m
                },
                core::cmp::Ordering::Less => {
                    let nl = remove_tree(left, key);
                    proof {
                        lemma_above_trans(right, kk, nkk);
                        lemma_below_absent(right, kk);
                        lemma_bytes_lt_asymmetric(kk, nkk);
                    }
                    let r = bal(nl, nk, nv, right);
                    proof {
                        assert(content(Some(r)) =~= content(tt).remove(kk));
                    }
                    Some(r)
                },
                core::cmp::Ordering::Greater => {
                    let nr = remove_tree(right, key);
                    proof {
                        lemma_below_trans(left, nkk, kk);
                        lemma_above_absent(left, kk);
                        lemma_bytes_lt_asymmetric(nkk, kk);
                    }
                    let r = bal(left, nk, nv, nr);
                    proof {
                        assert(content(Some(r)) =~= content(tt).remove(kk));
                    }
                    Some(r)
                },
            }
        },
    }
}

fn min_binding_node<V>(n: &Node<V>) -> (r: (&Symbol, &V))
    ensures
        (bindings(n.left).push((n.key, n.value)) + bindings(n.right))[0] == (*r.0, *r.1),
    decreases n,
{
    match &n.left {
        None => (&n.key, &n.value),
        Some(l) => {
            let r = min_binding_node(l);
            assert(bindings(n.left) == bindings(l.left).push((l.key, l.value)) + bindings(l.right));
            r
        },
    }
}

fn max_binding_node<V>(n: &Node<V>) -> (r: (&Symbol, &V))
    ensures
        (bindings(n.left).push((n.key, n.value)) + bindings(n.right)).last() == (*r.0, *r.1),
    decreases n,
{
    match &n.right {
        None => (&n.key, &n.value),
        Some(rn) => {
            let r = max_binding_node(rn);
            assert(bindings(n.right) == bindings(rn.left).push((rn.key, rn.value)) + bindings(rn.right));
            r
        },
    }
}

/// The in-order bindings are sorted by key and are exactly the map's bindings.
proof fn lemma_bindings_content<V>(t: Option<Box<Node<V>>>)
    requires
        wf(t),
    ensures
        forall|i: int|
            0 <= i < bindings(t).len() ==> #[trigger] content(t).dom().contains(bindings(t)[i].0.key())
                && content(t)[bindings(t)[i].0.key()] == bindings(t)[i].1,
        forall|i: int, j: int|
            0 <= i < j < bindings(t).len() ==> bytes_lt(
                #[trigger] bindings(t)[i].0.key(),
                #[trigger] bindings(t)[j].0.key(),
            ),
        forall|q: Seq<u8>|
            #[trigger] content(t).dom().contains(q) ==> exists|i: int|
                0 <= i < bindings(t).len() && bindings(t)[i].0.key() == q,
    decreases t,
{
    if let Some(n) = t {
        let l = n.left;
        let r = n.right;
        let kk = n.key.key();
        lemma_bindings_content(l);
        lemma_bindings_content(r);
        let bl = bindings(l);
        let br = bindings(r);
        let b = bindings(t);
        assert(b == bl.push((n.key, n.value)) + br);
        let nl = bl.len() as int;
        assert forall|i: int| 0 <= i < b.len() implies #[trigger] content(t).dom().contains(b[i].0.key())
            && content(t)[b[i].0.key()] == b[i].1 by {
            if i < nl {
                assert(b[i] == bl[i]);
                assert(content(l).dom().contains(bl[i].0.key()));
                lemma_bytes_lt_asymmetric(bl[i].0.key(), kk);
                if content(r).dom().contains(bl[i].0.key()) {
                    assert(bytes_lt(kk, bl[i].0.key()));
                }
            } else if i > nl {
                assert(b[i] == br[i - nl - 1]);
                assert(content(r).dom().contains(br[i - nl - 1].0.key()));
                lemma_bytes_lt_asymmetric(kk, br[i - nl - 1].0.key());
            }
        }
        assert forall|i: int, j: int| 0 <= i < j < b.len() implies bytes_lt(
            #[trigger] b[i].0.key(),
            #[trigger] b[j].0.key(),
        ) by {
            if j < nl {
                assert(b[i] == bl[i] && b[j] == bl[j]);
            } else if j == nl {
                assert(b[i] == bl[i]);
                assert(content(l).dom().contains(bl[i].0.key()));
            } else if i > nl {
                assert(b[i] == br[i - nl - 1] && b[j] == br[j - nl - 1]);
            } else if i == nl {
                assert(b[j] == br[j - nl - 1]);
                assert(content(r).dom().contains(br[j - nl - 1].0.key()));
            } else {
                assert(b[i] == bl[i]);
                assert(b[j] == br[j - nl - 1]);
                assert(content(l).dom().contains(bl[i].0.key()));
                assert(content(r).dom().contains(br[j - nl - 1].0.key()));
                lemma_bytes_lt_transitive(bl[i].0.key(), kk, br[j - nl - 1].0.key());
            }
        }
        assert forall|q: Seq<u8>| #[trigger] content(t).dom().contains(q) implies exists|i: int|
            0 <= i < b.len() && b[i].0.key() == q by {
            if q == kk {
                assert(b[nl].0.key() == q);
            } else if content(r).dom().contains(q) {
                let i = choose|i: int| 0 <= i < br.len() && br[i].0.key() == q;
                assert(b[nl + 1 + i] == br[i]);
            } else {
                assert(content(l).dom().contains(q));
                let i = choose|i: int| 0 <= i < bl.len() && bl[i].0.key() == q;
                assert(b[i] == bl[i]);
            }
        }
    }
}

/// `accs` records a left-to-right fold of `f` over `b`: `accs[i + 1]` is what
/// `f` returned on the `i`-th binding and `accs[i]`.
pub open spec fn fold_trace<V, F: FnMut(&Symbol, &V, &V) -> V>(
    f: F,
    b: Seq<(Symbol, V)>,
    accs: Seq<V>,
) -> bool {
    &&& accs.len() == b.len() + 1
    &&& forall|i: int|
        0 <= i < b.len() ==> f.ensures((&b[i].0, &b[i].1, &accs[i]), #[trigger] accs[i + 1])
}

fn iter_tree<V, F: FnMut(&Symbol, &V)>(t: &Option<Box<Node<V>>>, f: &mut F)
    requires
        forall|k: &Symbol, v: &V| (*old(f)).requires((k, v)),
    ensures
        *final(f) == *old(f),
        forall|i: int|
            0 <= i < bindings(*t).len() ==> (*old(f)).ensures((&(#[trigger] bindings(*t)[i]).0, &bindings(*t)[i].1), ()),
    decreases *t,
{
    if let Some(n) = t {
        iter_tree(&n.left, f);
        f(&n.key, &n.value);
        iter_tree(&n.right, f);
        proof {
            let bl = bindings(n.left);
            let br = bindings(n.right);
            let b = bindings(*t);
            assert(b == bl.push((n.key, n.value)) + br);
            let m = bl.len() as int;
            assert forall|i: int| 0 <= i < b.len() implies (*f).ensures((&(#[trigger] b[i]).0, &b[i].1), ()) by {
                if i < m {
                    assert(b[i] == bl[i]);
                } else if i > m {
                    assert(b[i] == br[i - m - 1]);
                }
            }
        }
    }
}

fn fold_tree<V: Copy, F: FnMut(&Symbol, &V, &V) -> V>(
    t: &Option<Box<Node<V>>>,
    acc: V,
    f: &mut F,
) -> (r: (V, Ghost<Seq<V>>))
    requires
        forall|k: &Symbol, v: &V, a: &V| (*old(f)).requires((k, v, a)),
    ensures
        *final(f) == *old(f),
        fold_trace(*old(f), bindings(*t), r.1@),
        r.1@[0] == acc,
        r.1@.last() == r.0,
    decreases *t,
{
    match t {
        None => {
            let ghost accs = seq![acc];
            (acc, Ghost(accs))
        },
        Some(n) => {
            let (a1, Ghost(tl)) = fold_tree(&n.left, acc, f);
            let a2 = f(&n.key, &n.value, &a1);
            let (a3, Ghost(tr)) = fold_tree(&n.right, a2, f);
            let ghost accs = tl + tr;
            proof {
                let bl = bindings(n.left);
                let br = bindings(n.right);
                let b = bindings(*t);
                assert(b == bl.push((n.key, n.value)) + br);
                let nl = bl.len() as int;
                assert forall|i: int| 0 <= i < b.len() implies (*f).ensures(
                    (&b[i].0, &b[i].1, &accs[i]),
                    #[trigger] accs[i + 1],
                ) by {
                    if i < nl {
                        assert(b[i] == bl[i]);
                        assert(accs[i] == tl[i] && accs[i + 1] == tl[i + 1]);
                        assert((*f).ensures((&bl[i].0, &bl[i].1, &tl[i]), tl[i + 1]));
                    } else if i == nl {
                        assert(tl.len() == nl + 1);
                        assert(accs[i] == tl[nl] && accs[i + 1] == tr[0]);
                    } else {
                        let j = i - nl - 1;
                        assert(b[i] == br[j]);
                        assert(accs[i] == tr[j] && accs[i + 1] == tr[j + 1]);
                        assert((*f).ensures((&br[j].0, &br[j].1, &tr[j]), tr[j + 1]));
                    }
                }
            }
            (a3, Ghost(accs))
        },
    }
}

#[verifier::rlimit(40)]
fn map_tree<V: Copy, F: FnMut(&Symbol, &V) -> V>(t: Option<Box<Node<V>>>, f: &mut F) -> (r: Option<
    Box<Node<V>>,
>)
    requires
        wf(t),
        forall|k: &Symbol, v: &V| (*old(f)).requires((k, v)),
    ensures
        *final(f) == *old(f),
        wf(r),
        height(r) == height(t),
        content(r).dom() == content(t).dom(),
        bindings(r).len() == bindings(t).len(),
        forall|i: int|
            0 <= i < bindings(t).len() ==> #[trigger] bindings(r)[i].0 == bindings(t)[i].0
                && (*old(f)).ensures((&bindings(t)[i].0, &bindings(t)[i].1), bindings(r)[i].1),
    decreases t,
{
    match t {
        None => None,
        Some(n) => {
            let ghost tt = Some(n);
            let Node { key, value, left, right, height } = *n;
            let ghost l0 = left;
            let ghost r0 = right;
            let nl = map_tree(left, f);
            let nv = f(&key, &value);
            let nr = map_tree(right, f);
            let res = Some(Box::new(Node { key, value: nv, left: nl, right: nr, height }));
            proof {
                let kk = key.key();
                assert(content(res).dom() =~= content(tt).dom());
                let bl = bindings(l0);
                let br = bindings(r0);
                let b = bindings(tt);
                let c = bindings(res);
                assert(b == bl.push((key, value)) + br);
                assert(c == bindings(nl).push((key, nv)) + bindings(nr));
                let m = bl.len() as int;
                assert forall|i: int| 0 <= i < b.len() implies #[trigger] c[i].0 == b[i].0
                    && (*f).ensures((&b[i].0, &b[i].1), c[i].1) by {
                    if i < m {
                        assert(b[i] == bl[i] && c[i] == bindings(nl)[i]);
                        assert(bindings(nl)[i].0 == bl[i].0 && (*f).ensures((&bl[i].0, &bl[i].1), bindings(nl)[i].1));
                    } else if i > m {
                        let j = i - m - 1;
                        assert(b[i] == br[j] && c[i] == bindings(nr)[j]);
                        assert(bindings(nr)[j].0 == br[j].0 && (*f).ensures((&br[j].0, &br[j].1), bindings(nr)[j].1));
                    } else {
                        assert(b[i] == (key, value) && c[i] == (key, nv));
                    }
                }
                assert(t == tt);
                assert(bindings(t) == b && bindings(res) == c);
            }
            res
        },
    }
}

fn map_values_tree<V: Copy, F: FnMut(&V) -> V>(t: Option<Box<Node<V>>>, f: &mut F) -> (r: Option<
    Box<Node<V>>,
>)
    requires
        wf(t),
        forall|v: &V| (*old(f)).requires((v,)),
    ensures
        *final(f) == *old(f),
        wf(r),
        height(r) == height(t),
        content(r).dom() == content(t).dom(),
        forall|q: Seq<u8>|
            #[trigger] content(t).dom().contains(q) ==> (*old(f)).ensures((&content(t)[q],), content(r)[q]),
    decreases t,
{
    match t {
        None => None,
        Some(n) => {
            let ghost tt = Some(n);
            let Node { key, value, left, right, height } = *n;
            let ghost l0 = left;
            let ghost r0 = right;
            let nl = map_values_tree(left, f);
            let nv = f(&value);
            let nr = map_values_tree(right, f);
            let res = Some(Box::new(Node { key, value: nv, left: nl, right: nr, height }));
            proof {
                assert(content(res).dom() =~= content(tt).dom());
                assert forall|q: Seq<u8>| #[trigger] content(tt).dom().contains(q) implies (*f).ensures(
                    (&content(tt)[q],),
                    content(res)[q],
                ) by {
                    if q != key.key() && !content(r0).dom().contains(q) {
                        assert(content(l0).dom().contains(q));
                    }
                }
            }
            res
        },
    }
}

/// Some binding of `b` with symbol `s` was rejected by `f`.
spec fn rejects<V, F: FnMut(&Symbol, &V) -> bool>(f: F, b: Seq<(Symbol, V)>, s: Symbol) -> bool {
    exists|i: int| 0 <= i < b.len() && b[i].0 == s && f.ensures((&b[i].0, &b[i].1), false)
}

/// `s` stands in `out` at or after position `from`.
spec fn listed(out: Seq<Symbol>, from: int, s: Symbol) -> bool {
    exists|j: int| from <= j < out.len() && out[j] == s
}

/// Appends to `out` the symbol of every binding that `f` rejects.
fn rejected_tree<V, F: FnMut(&Symbol, &V) -> bool>(
    t: &Option<Box<Node<V>>>,
    f: &mut F,
    out: &mut Vec<Symbol>,
)
    requires
        forall|k: &Symbol, v: &V| (*old(f)).requires((k, v)),
    ensures
        *final(f) == *old(f),
        final(out)@.len() >= old(out)@.len(),
        final(out)@.subrange(0, old(out)@.len() as int) == old(out)@,
        forall|j: int|
            old(out)@.len() <= j < final(out)@.len() ==> rejects(
                *old(f),
                bindings(*t),
                #[trigger] final(out)@[j],
            ),
        forall|i: int|
            0 <= i < bindings(*t).len() ==> (*old(f)).ensures(
                (&(#[trigger] bindings(*t)[i]).0, &bindings(*t)[i].1),
                true,
            ) || listed(final(out)@, old(out)@.len() as int, bindings(*t)[i].0),
    decreases *t,
{
    if let Some(n) = t {
        let ghost o0 = out@;
        let ghost bl = bindings(n.left);
        let ghost br = bindings(n.right);
        let ghost b = bindings(*t);
        let ghost m = bl.len() as int;
        assert(b == bl.push((n.key, n.value)) + br);
        rejected_tree(&n.left, f, out);
        let ghost o1 = out@;
        let keep = f(&n.key, &n.value);
        if !keep {
            out.push(n.key.duplicate());
        }
        let ghost o2 = out@;
        rejected_tree(&n.right, f, out);
        let ghost o3 = out@;
        proof {
            assert forall|j: int| 0 <= j < o2.len() implies o3[j] == o2[j] by {
                assert(o3.subrange(0, o2.len() as int)[j] == o3[j]);
            }
            assert forall|j: int| 0 <= j < o1.len() implies o2[j] == o1[j] by {
                assert(o2.subrange(0, o1.len() as int)[j] == o2[j]);
            }
            assert forall|j: int| 0 <= j < o0.len() implies o1[j] == o0[j] by {
                assert(o1.subrange(0, o0.len() as int)[j] == o1[j]);
            }
            assert(o3.subrange(0, o0.len() as int) =~= o0);
            assert forall|j: int| o0.len() <= j < o3.len() implies rejects(*f, b, #[trigger] o3[j]) by {
                if j < o1.len() {
                    assert(rejects(*f, bl, o1[j]));
                    let i = choose|i: int|
                        0 <= i < bl.len() && bl[i].0 == o1[j] && (*f).ensures((&bl[i].0, &bl[i].1), false);
                    assert(b[i] == bl[i]);
                    assert(0 <= i < b.len() && b[i].0 == o3[j] && (*f).ensures((&b[i].0, &b[i].1), false));
                } else if j < o2.len() {
                    assert(b[m] == (n.key, n.value));
                    assert(0 <= m < b.len() && b[m].0 == o3[j] && (*f).ensures((&b[m].0, &b[m].1), false));
                } else {
                    assert(rejects(*f, br, o3[j]));
                    let i = choose|i: int|
                        0 <= i < br.len() && br[i].0 == o3[j] && (*f).ensures((&br[i].0, &br[i].1), false);
                    assert(b[m + 1 + i] == br[i]);
                    let i2 = m + 1 + i;
                    assert(0 <= i2 < b.len() && b[i2].0 == o3[j] && (*f).ensures((&b[i2].0, &b[i2].1), false));
                }
            }
            assert forall|i: int| 0 <= i < b.len() implies (*f).ensures(
                (&(#[trigger] b[i]).0, &b[i].1),
                true,
            ) || listed(o3, o0.len() as int, b[i].0) by {
                if i < m {
                    assert(b[i] == bl[i]);
                    if !(*f).ensures((&bl[i].0, &bl[i].1), true) {
                        assert(listed(o1, o0.len() as int, bl[i].0));
                        let j = choose|j: int| o0.len() <= j < o1.len() && o1[j] == bl[i].0;
                        assert(o3[j] == o1[j]);
                    }
                } else if i == m {
                    if !keep {
                        let j = o1.len() as int;
                        assert(o3[j] == o2[j]);
                    }
                } else {
                    assert(b[i] == br[i - m - 1]);
                }
            }
        }
    }
}

proof fn lemma_filter_outcome<V, F: FnMut(&Symbol, &V) -> bool>(
    f: F,
    t: Option<Box<Node<V>>>,
    out: Seq<Symbol>,
    after: Map<Seq<u8>, V>,
)
    requires
        wf(t),
        forall|j: int| 0 <= j < out.len() ==> rejects(f, bindings(t), #[trigger] out[j]),
        forall|i: int|
            0 <= i < bindings(t).len() ==> f.ensures(
                (&(#[trigger] bindings(t)[i]).0, &bindings(t)[i].1),
                true,
            ) || listed(out, 0, bindings(t)[i].0),
        forall|q: Seq<u8>|
            #[trigger] after.contains_key(q) <==> (content(t).contains_key(q) && forall|k: int|
                0 <= k < out.len() ==> out[k].key() != q),
    ensures
        forall|i: int|
            0 <= i < bindings(t).len() ==> {
                let b = #[trigger] bindings(t)[i];
                if after.contains_key(b.0.key()) {
                    f.ensures((&b.0, &b.1), true)
                } else {
                    f.ensures((&b.0, &b.1), false)
                }
            },
{
    let b = bindings(t);
    lemma_bindings_content(t);
    assert forall|i: int| 0 <= i < b.len() implies {
        let e = #[trigger] b[i];
        if after.contains_key(e.0.key()) {
            f.ensures((&e.0, &e.1), true)
        } else {
            f.ensures((&e.0, &e.1), false)
        }
    } by {
        let e = b[i];
        assert(content(t).contains_key(e.0.key()));
        if after.contains_key(e.0.key()) {
            if !f.ensures((&e.0, &e.1), true) {
                assert(listed(out, 0, b[i].0));
                let j = choose|j: int| 0 <= j < out.len() && out[j] == b[i].0;
                assert(out[j].key() == e.0.key());
            }
        } else {
            let k = choose|k: int| 0 <= k < out.len() && out[k].key() == e.0.key();
            assert(rejects(f, b, out[k]));
            let i2 = choose|i2: int|
                0 <= i2 < b.len() && b[i2].0 == out[k] && f.ensures((&b[i2].0, &b[i2].1), false);
            if i2 < i {
                assert(bytes_lt(b[i2].0.key(), b[i].0.key()));
                lemma_bytes_lt_asymmetric(b[i2].0.key(), b[i].0.key());
            } else if i2 > i {
                assert(bytes_lt(b[i].0.key(), b[i2].0.key()));
                lemma_bytes_lt_asymmetric(b[i].0.key(), b[i2].0.key());
            }
        }
    }
}

fn for_all_tree<V, F: FnMut(&Symbol, &V) -> bool>(t: &Option<Box<Node<V>>>, f: &mut F) -> (r: bool)
    requires
        forall|k: &Symbol, v: &V| (*old(f)).requires((k, v)),
    ensures
        *final(f) == *old(f),
        r ==> forall|i: int|
            0 <= i < bindings(*t).len() ==> (*old(f)).ensures(
                (&(#[trigger] bindings(*t)[i]).0, &bindings(*t)[i].1),
                true,
            ),
        !r ==> exists|i: int|
            0 <= i < bindings(*t).len() && (*old(f)).ensures(
                (&(#[trigger] bindings(*t)[i]).0, &bindings(*t)[i].1),
                false,
            ),
    decreases *t,
{
    match t {
        None => true,
        Some(n) => {
            let ghost bl = bindings(n.left);
            let ghost br = bindings(n.right);
            let ghost b = bindings(*t);
            let ghost m = bl.len() as int;
            assert(b == bl.push((n.key, n.value)) + br);
            if !f(&n.key, &n.value) {
                assert(b[m] == (n.key, n.value));
                return false;
            }
            if !for_all_tree(&n.left, f) {
                let ghost i = choose|i: int|
                    0 <= i < bl.len() && (*f).ensures((&(#[trigger] bl[i]).0, &bl[i].1), false);
                assert(b[i] == bl[i]);
                return false;
            }
            if !for_all_tree(&n.right, f) {
                let ghost i = choose|i: int|
                    0 <= i < br.len() && (*f).ensures((&(#[trigger] br[i]).0, &br[i].1), false);
                assert(b[m + 1 + i] == br[i]);
                return false;
            }
            assert forall|i: int| 0 <= i < b.len() implies (*f).ensures(
                (&(#[trigger] b[i]).0, &b[i].1),
                true,
            ) by {
                if i < m {
                    assert(b[i] == bl[i]);
                } else if i > m {
                    assert(b[i] == br[i - m - 1]);
                }
            }
            true
        },
    }
}

fn keys_within<V>(t: &Option<Box<Node<V>>>, other: &Option<Box<Node<V>>>) -> (r: bool)
    requires
        wf(*t),
        wf(*other),
    ensures
        r == content(*t).dom().subset_of(content(*other).dom()),
    decreases *t,
{
    match t {
        None => true,
        Some(n) => {
            let here = find_tree(other, &n.key).is_some();
            let r = here && keys_within(&n.left, other) && keys_within(&n.right, other);
            proof {
                if !r {
                    if here && keys_within_spec_left(n.left, *other) {
                        assert(!content(n.right).dom().subset_of(content(*other).dom()));
                        let q = choose|q: Seq<u8>|
                            content(n.right).dom().contains(q) && !content(*other).dom().contains(q);
                        assert(content(*t).dom().contains(q));
                    } else if here {
                        let q = choose|q: Seq<u8>|
                            content(n.left).dom().contains(q) && !content(*other).dom().contains(q);
                        assert(content(*t).dom().contains(q));
                    }
                }
            }
            r
        },
    }
}

spec fn keys_within_spec_left<V>(l: Option<Box<Node<V>>>, other: Option<Box<Node<V>>>) -> bool {
    content(l).dom().subset_of(content(other).dom())
}

fn same_keys<V>(a: &Option<Box<Node<V>>>, b: &Option<Box<Node<V>>>) -> (r: bool)
    requires
        wf(*a),
        wf(*b),
    ensures
        r == (content(*a).dom() == content(*b).dom()),
{
    let r = keys_within(a, b) && keys_within(b, a);
    proof {
        if r {
            assert(content(*a).dom() =~= content(*b).dom());
        }
    }
    r
}

/// The value `w` that a key-aligned operation leaves for a key bound to `v1`
/// on the left and `v2` on the right: `v1` itself where the two are equal,
/// else a result of `f`.
pub open spec fn merged<V: PartialEq, F: FnMut(&V, &V) -> V>(f: F, v1: V, v2: V, w: V) -> bool {
    if V::obeys_eq_spec() {
        if v1.eq_spec(&v2) {
            w == v1
        } else {
            f.ensures((&v1, &v2), w)
        }
    } else {
        w == v1 || f.ensures((&v1, &v2), w)
    }
}

/// One step of a key-aligned fold: the accumulator is kept where the two
/// values are equal, else it is what `f` returned.
pub open spec fn fold2z_step<V: PartialEq, F: FnMut(&Symbol, &V, &V, &V) -> V>(
    f: F,
    s: Symbol,
    v1: V,
    v2: V,
    acc: V,
    next: V,
) -> bool {
    if V::obeys_eq_spec() {
        if v1.eq_spec(&v2) {
            next == acc
        } else {
            f.ensures((&s, &v1, &v2, &acc), next)
        }
    } else {
        next == acc || f.ensures((&s, &v1, &v2, &acc), next)
    }
}

/// `accs` records a key-aligned fold of `f` over the bindings `b`, whose
/// keys `other` binds too.
pub open spec fn fold2z_trace<V: PartialEq, F: FnMut(&Symbol, &V, &V, &V) -> V>(
    f: F,
    b: Seq<(Symbol, V)>,
    other: Map<Seq<u8>, V>,
    accs: Seq<V>,
) -> bool {
    &&& accs.len() == b.len() + 1
    &&& forall|i: int|
        0 <= i < b.len() ==> fold2z_step(
            f,
            b[i].0,
            b[i].1,
            other[b[i].0.key()],
            accs[i],
            #[trigger] accs[i + 1],
        )
}

/// The two values of a key are not equal as far as `==` on `V` tells; where
/// `==` does not follow its specification, nothing is known.
pub open spec fn differs<V: PartialEq>(v1: V, v2: V) -> bool {
    V::obeys_eq_spec() ==> !v1.eq_spec(&v2)
}

/// The two values of a key are known to be unequal: `==` on `V` follows its
/// specification and tells them apart.
pub open spec fn unequal<V: PartialEq>(v1: V, v2: V) -> bool {
    V::obeys_eq_spec() && !v1.eq_spec(&v2)
}

/// A key-aligned check passes a binding: the two values are equal, or `f`
/// accepted them.
pub open spec fn passes2z<V: PartialEq, F: FnMut(&Symbol, &V, &V) -> bool>(
    f: F,
    s: Symbol,
    v1: V,
    v2: V,
) -> bool {
    (V::obeys_eq_spec() && !v1.eq_spec(&v2)) ==> f.ensures((&s, &v1, &v2), true)
}

fn map2z_tree<V: Copy + PartialEq, F: FnMut(&V, &V) -> V>(
    t: Option<Box<Node<V>>>,
    other: &Option<Box<Node<V>>>,
    f: &mut F,
) -> (r: Option<Box<Node<V>>>)
    requires
        wf(t),
        wf(*other),
        content(t).dom().subset_of(content(*other).dom()),
        forall|a: &V, b: &V| (*old(f)).requires((a, b)),
    ensures
        *final(f) == *old(f),
        wf(r),
        height(r) == height(t),
        content(r).dom() == content(t).dom(),
        forall|q: Seq<u8>|
            #[trigger] content(t).dom().contains(q) ==> merged(
                *old(f),
                content(t)[q],
                content(*other)[q],
                content(r)[q],
            ),
    decreases t,
{
    match t {
        None => None,
        Some(n) => {
            let ghost tt = Some(n);
            let Node { key, value, left, right, height } = *n;
            let ghost l0 = left;
            let ghost r0 = right;
            let nl = map2z_tree(left, other, f);
            assert(content(tt).dom().contains(key.key()));
            let v2 = find_tree(other, &key).unwrap();
            let nv = if value == *v2 {
                value
            } else {
                f(&value, v2)
            };
            let nr = map2z_tree(right, other, f);
            let res = Some(Box::new(Node { key, value: nv, left: nl, right: nr, height }));
            proof {
                assert(content(res).dom() =~= content(tt).dom());
                assert forall|q: Seq<u8>| #[trigger] content(tt).dom().contains(q) implies merged(
                    *f,
                    content(tt)[q],
                    content(*other)[q],
                    content(res)[q],
                ) by {
                    if q != key.key() && !content(r0).dom().contains(q) {
                        assert(content(l0).dom().contains(q));
                    }
                }
            }
            res
        },
    }
}

fn iter2z_tree<V: PartialEq, F: FnMut(&Symbol, &V, &V)>(
    t: &Option<Box<Node<V>>>,
    other: &Option<Box<Node<V>>>,
    f: &mut F,
)
    requires
        wf(*t),
        wf(*other),
        content(*t).dom().subset_of(content(*other).dom()),
        forall|k: &Symbol, a: &V, b: &V| (*old(f)).requires((k, a, b)),
    ensures
        *final(f) == *old(f),
        forall|i: int|
            0 <= i < bindings(*t).len() && unequal((#[trigger] bindings(*t)[i]).1, content(*other)[bindings(*t)[i].0.key()])
                ==> (*old(f)).ensures(
                (&bindings(*t)[i].0, &bindings(*t)[i].1, &content(*other)[bindings(*t)[i].0.key()]),
                (),
            ),
    decreases *t,
{
    if let Some(n) = t {
        iter2z_tree(&n.left, other, f);
        assert(content(*t).dom().contains(n.key.key()));
        let v2 = find_tree(other, &n.key).unwrap();
        let called = !(n.value == *v2);
        if called {
            f(&n.key, &n.value, v2);
        }
        iter2z_tree(&n.right, other, f);
        proof {
            let bl = bindings(n.left);
            let br = bindings(n.right);
            let b = bindings(*t);
            let o = content(*other);
            assert(b == bl.push((n.key, n.value)) + br);
            let m = bl.len() as int;
            assert forall|i: int| 0 <= i < b.len() && unequal((#[trigger] b[i]).1, o[b[i].0.key()]) implies (*f).ensures(
                (&b[i].0, &b[i].1, &o[b[i].0.key()]),
                (),
            ) by {
                if i < m {
                    assert(b[i] == bl[i]);
                } else if i > m {
                    assert(b[i] == br[i - m - 1]);
                } else {
                    assert(b[i] == (n.key, n.value));
                }
            }
        }
    }
}

fn fold2z_tree<V: Copy + PartialEq, F: FnMut(&Symbol, &V, &V, &V) -> V>(
    t: &Option<Box<Node<V>>>,
    other: &Option<Box<Node<V>>>,
    acc: V,
    f: &mut F,
) -> (r: (V, Ghost<Seq<V>>))
    requires
        wf(*t),
        wf(*other),
        content(*t).dom().subset_of(content(*other).dom()),
        forall|k: &Symbol, a: &V, b: &V, c: &V| (*old(f)).requires((k, a, b, c)),
    ensures
        *final(f) == *old(f),
        fold2z_trace(*old(f), bindings(*t), content(*other), r.1@),
        r.1@[0] == acc,
        r.1@.last() == r.0,
    decreases *t,
{
    match t {
        None => {
            let ghost accs = seq![acc];
            (acc, Ghost(accs))
        },
        Some(n) => {
            let (a1, Ghost(tl)) = fold2z_tree(&n.left, other, acc, f);
            assert(content(*t).dom().contains(n.key.key()));
            let v2 = find_tree(other, &n.key).unwrap();
            let a2 = if n.value == *v2 {
                a1
            } else {
                f(&n.key, &n.value, v2, &a1)
            };
            let (a3, Ghost(tr)) = fold2z_tree(&n.right, other, a2, f);
            let ghost accs = tl + tr;
            proof {
                let bl = bindings(n.left);
                let br = bindings(n.right);
                let b = bindings(*t);
                let o = content(*other);
                assert(b == bl.push((n.key, n.value)) + br);
                let nl = bl.len() as int;
                assert forall|i: int| 0 <= i < b.len() implies fold2z_step(
                    *f,
                    b[i].0,
                    b[i].1,
                    o[b[i].0.key()],
                    accs[i],
                    #[trigger] accs[i + 1],
                ) by {
                    if i < nl {
                        assert(b[i] == bl[i]);
                        assert(accs[i] == tl[i] && accs[i + 1] == tl[i + 1]);
                        assert(fold2z_step(*f, bl[i].0, bl[i].1, o[bl[i].0.key()], tl[i], tl[i + 1]));
                    } else if i == nl {
                        assert(tl.len() == nl + 1);
                        assert(accs[i] == tl[nl] && accs[i + 1] == tr[0]);
                    } else {
                        let j = i - nl - 1;
                        assert(b[i] == br[j]);
                        assert(accs[i] == tr[j] && accs[i + 1] == tr[j + 1]);
                        assert(fold2z_step(*f, br[j].0, br[j].1, o[br[j].0.key()], tr[j], tr[j + 1]));
                    }
                }
            }
            (a3, Ghost(accs))
        },
    }
}

fn for_all2z_tree<V: PartialEq, F: FnMut(&Symbol, &V, &V) -> bool>(
    t: &Option<Box<Node<V>>>,
    other: &Option<Box<Node<V>>>,
    f: &mut F,
) -> (r: bool)
    requires
        wf(*t),
        wf(*other),
        content(*t).dom().subset_of(content(*other).dom()),
        forall|k: &Symbol, a: &V, b: &V| (*old(f)).requires((k, a, b)),
    ensures
        *final(f) == *old(f),
        r ==> forall|i: int|
            0 <= i < bindings(*t).len() ==> passes2z(
                *old(f),
                (#[trigger] bindings(*t)[i]).0,
                bindings(*t)[i].1,
                content(*other)[bindings(*t)[i].0.key()],
            ),
        !r ==> exists|i: int|
            0 <= i < bindings(*t).len() && differs((#[trigger] bindings(*t)[i]).1, content(*other)[bindings(*t)[i].0.key()])
                && (*old(f)).ensures(
                (
                    &bindings(*t)[i].0,
                    &bindings(*t)[i].1,
                    &content(*other)[bindings(*t)[i].0.key()],
                ),
                false,
            ),
    decreases *t,
{
    match t {
        None => true,
        Some(n) => {
            let ghost bl = bindings(n.left);
            let ghost br = bindings(n.right);
            let ghost b = bindings(*t);
            let ghost o = content(*other);
            let ghost m = bl.len() as int;
            assert(b == bl.push((n.key, n.value)) + br);
            if !for_all2z_tree(&n.left, other, f) {
                let ghost i = choose|i: int|
                    0 <= i < bl.len() && differs((#[trigger] bl[i]).1, o[bl[i].0.key()]) && (*f).ensures(
                        (&bl[i].0, &bl[i].1, &o[bl[i].0.key()]),
                        false,
                    );
                assert(b[i] == bl[i]);
                return false;
            }
            assert(content(*t).dom().contains(n.key.key()));
            let v2 = find_tree(other, &n.key).unwrap();
            if !(n.value == *v2) {
                if !f(&n.key, &n.value, v2) {
                    assert(b[m] == (n.key, n.value));
                    return false;
                }
            }
            if !for_all2z_tree(&n.right, other, f) {
                let ghost i = choose|i: int|
                    0 <= i < br.len() && differs((#[trigger] br[i]).1, o[br[i].0.key()]) && (*f).ensures(
                        (&br[i].0, &br[i].1, &o[br[i].0.key()]),
                        false,
                    );
                assert(b[m + 1 + i] == br[i]);
                return false;
            }
            assert forall|i: int| 0 <= i < b.len() implies passes2z(
                *f,
                (#[trigger] b[i]).0,
                b[i].1,
                o[b[i].0.key()],
            ) by {
                if i < m {
                    assert(b[i] == bl[i]);
                } else if i > m {
                    assert(b[i] == br[i - m - 1]);
                }
            }
            true
        },
    }
}

fn copy_tree<V: Copy>(t: &Option<Box<Node<V>>>) -> (r: Option<Box<Node<V>>>)
    ensures
        r == *t,
    decreases *t,
{
    match t {
        None => None,
        Some(n) => {
            let l = copy_tree(&n.left);
            let r = copy_tree(&n.right);
            Some(Box::new(Node { key: n.key.duplicate(), value: n.value, left: l, right: r, height: n.height }))
        },
    }
}

fn replace_tree<V>(t: Option<Box<Node<V>>>, key: &Symbol, value: V) -> (r: Option<Box<Node<V>>>)
    requires
        wf(t),
    ensures
        wf(r),
        height(r) == height(t),
        content(r) == if content(t).dom().contains(key.key()) {
            content(t).insert(key.key(), value)
        } else {
            content(t)
        },
    decreases t,
{
    match t {
        None => None,
        Some(n) => {
            let ghost tt = Some(n);
            let Node { key: nk, value: nv, left, right, height } = *n;
            let ghost kk = key.key();
            let ghost nkk = nk.key();
            match key.compare(&nk) {
                core::cmp::Ordering::Equal => {
                    let r = Some(Box::new(Node { key: nk, value, left, right, height }));
                    proof {
                        assert(content(r) =~= content(tt).insert(kk, value));
                    }
                    r
                },
                core::cmp::Ordering::Less => {
                    proof {
                        lemma_above_trans(right, kk, nkk);
                        lemma_below_absent(right, kk);
                        lemma_bytes_lt_asymmetric(kk, nkk);
                    }
                    let nl = replace_tree(left, key, value);
                    let r = Some(Box::new(Node { key: nk, value: nv, left: nl, right, height }));
                    proof {
                        if content(tt).dom().contains(kk) {
                            assert(content(r) =~= content(tt).insert(kk, value));
                        } else {
                            assert(content(r) =~= content(tt));
                        }
                    }
                    r
                },
                core::cmp::Ordering::Greater => {
                    proof {
                        lemma_below_trans(left, nkk, kk);
                        lemma_above_absent(left, kk);
                        lemma_bytes_lt_asymmetric(nkk, kk);
                    }
                    let nr = replace_tree(right, key, value);
                    let r = Some(Box::new(Node { key: nk, value: nv, left, right: nr, height }));
                    proof {
                        if content(tt).dom().contains(kk) {
                            assert(content(r) =~= content(tt).insert(kk, value));
                        } else {
                            assert(content(r) =~= content(tt));
                        }
                    }
                    r
                },
            }
        },
    }
}

/// An ordered map from symbols to values, kept as an AVL tree; a copy
/// (`duplicate`) is a separate tree.
///
/// Symbols are identified and ordered by the bytes of their names.
pub struct AvlMap<V> {
    root: Option<Box<Node<V>>>,
}

impl<V> View for AvlMap<V> {
    type V = Map<Seq<u8>, V>;

    closed spec fn view(&self) -> Map<Seq<u8>, V> {
        content(self.root)
    }
}

impl<V: Copy> AvlMap<V> {
    /// Search-tree order, cached heights and balance hold at every node.
    pub closed spec fn wf(&self) -> bool {
        wf(self.root)
    }

    /// The bindings in ascending order of their keys.
    pub closed spec fn bindings(&self) -> Seq<(Symbol, V)> {
        bindings(self.root)
    }

    /// Height of the tree.
    pub closed spec fn height(&self) -> nat {
        height(self.root)
    }

    /// At every node the heights of the two subtrees differ by at most 2.
    pub closed spec fn balanced(&self) -> bool {
        balanced(self.root)
    }

    pub fn new() -> (r: AvlMap<V>)
        ensures
            r.wf(),
            r@ == Map::<Seq<u8>, V>::empty(),
            r.height() == 0,
    {
        AvlMap { root: None }
    }

    pub fn singleton(key: &Symbol, value: &V) -> (r: AvlMap<V>)
        ensures
            r.wf(),
            r@ == Map::<Seq<u8>, V>::empty().insert(key.key(), *value),
            r.height() == 1,
            r.bindings() == seq![(*key, *value)],
    {
        let n = create(None, key.duplicate(), *value, None);
        proof {
            assert(content(Some(n)) =~= Map::<Seq<u8>, V>::empty().insert(key.key(), *value));
        }
        AvlMap { root: Some(n) }
    }

    pub fn is_empty(&self) -> (r: bool)
        requires
            self.wf(),
        ensures
            r == (self@.dom().len() == 0),
    {
        match &self.root {
            None => {
                assert(self@ =~= Map::<Seq<u8>, V>::empty());
                true
            },
            Some(n) => {
                assert(self@.dom().contains(n.key.key()));
                proof {
                    lemma_content_finite(self.root);
                }
                false
            },
        }
    }

    pub fn mem(&self, key: &Symbol) -> (r: bool)
        requires
            self.wf(),
        ensures
            r == self@.contains_key(key.key()),
    {
        find_tree(&self.root, key).is_some()
    }

    pub fn find(&self, key: &Symbol) -> (r: Option<&V>)
        requires
            self.wf(),
        ensures
            match r {
                Some(v) => self@.contains_key(key.key()) && *v == self@[key.key()],
                None => !self@.contains_key(key.key()),
            },
    {
        find_tree(&self.root, key)
    }

    /// Calls `f` on every binding, in ascending order of keys.
    pub fn iter<F: FnMut(&Symbol, &V)>(&self, f: F)
        requires
            forall|k: &Symbol, v: &V| f.requires((k, v)),
        ensures
            forall|i: int|
                0 <= i < self.bindings().len() ==> f.ensures(
                    (&(#[trigger] self.bindings()[i]).0, &self.bindings()[i].1),
                    (),
                ),
    {
        let mut g = f;
        iter_tree(&self.root, &mut g);
    }

    /// Folds `f` over the bindings in ascending order of keys, starting from
    /// `base`: each call gets a binding and the result of the previous call.
    pub fn fold<F: FnMut(&Symbol, &V, &V) -> V>(&self, base: &V, f: F) -> (r: V)
        requires
            forall|k: &Symbol, v: &V, a: &V| f.requires((k, v, a)),
        ensures
            exists|accs: Seq<V>|
                fold_trace(f, self.bindings(), accs) && accs[0] == *base && accs.last() == r,
    {
        let mut g = f;
        let (r, Ghost(accs)) = fold_tree(&self.root, *base, &mut g);
        r
    }

    /// Replaces every value `v` by `f(v)`.
    pub fn map<F: FnMut(&V) -> V>(&mut self, f: F)
        requires
            old(self).wf(),
            forall|v: &V| f.requires((v,)),
        ensures
            final(self).wf(),
            final(self).height() == old(self).height(),
            final(self)@.dom() == old(self)@.dom(),
            forall|q: Seq<u8>|
                #[trigger] old(self)@.contains_key(q) ==> f.ensures((&old(self)@[q],), final(self)@[q]),
    {
        let mut g = f;
        let t = self.root.take();
        self.root = map_values_tree(t, &mut g);
    }

    /// Replaces every binding `(k, v)` by `(k, f(k, v))`.
    pub fn mapi<F: FnMut(&Symbol, &V) -> V>(&mut self, f: F)
        requires
            old(self).wf(),
            forall|k: &Symbol, v: &V| f.requires((k, v)),
        ensures
            final(self).wf(),
            final(self).height() == old(self).height(),
            final(self)@.dom() == old(self)@.dom(),
            final(self).bindings().len() == old(self).bindings().len(),
            forall|i: int|
                0 <= i < old(self).bindings().len() ==> #[trigger] final(self).bindings()[i].0
                    == old(self).bindings()[i].0 && f.ensures(
                    (&old(self).bindings()[i].0, &old(self).bindings()[i].1),
                    final(self).bindings()[i].1,
                ),
    {
        let mut g = f;
        let t = self.root.take();
        self.root = map_tree(t, &mut g);
    }

    /// Whether `f` holds of every binding; stops at the first that fails.
    pub fn for_all<F: FnMut(&Symbol, &V) -> bool>(&self, f: F) -> (r: bool)
        requires
            forall|k: &Symbol, v: &V| f.requires((k, v)),
        ensures
            r ==> forall|i: int|
                0 <= i < self.bindings().len() ==> f.ensures(
                    (&(#[trigger] self.bindings()[i]).0, &self.bindings()[i].1),
                    true,
                ),
            !r ==> exists|i: int|
                0 <= i < self.bindings().len() && f.ensures(
                    (&(#[trigger] self.bindings()[i]).0, &self.bindings()[i].1),
                    false,
                ),
    {
        let mut g = f;
        let r = for_all_tree(&self.root, &mut g);
        proof {
            if !r {
                let b = bindings(self.root);
                let i = choose|i: int|
                    0 <= i < b.len() && g.ensures((&(#[trigger] b[i]).0, &b[i].1), false);
                assert(f.ensures((&self.bindings()[i].0, &self.bindings()[i].1), false));
            }
        }
        r
    }

    /// Keeps the bindings that `f` accepts and drops the others.
    pub fn filter<F: FnMut(&Symbol, &V) -> bool>(&mut self, f: F)
        requires
            old(self).wf(),
            forall|k: &Symbol, v: &V| f.requires((k, v)),
        ensures
            final(self).wf(),
            final(self).height() <= old(self).height(),
            forall|q: Seq<u8>|
                #[trigger] final(self)@.contains_key(q) ==> old(self)@.contains_key(q)
                    && final(self)@[q] == old(self)@[q],
            forall|i: int|
                0 <= i < old(self).bindings().len() ==> {
                    let b = #[trigger] old(self).bindings()[i];
                    if final(self)@.contains_key(b.0.key()) {
                        f.ensures((&b.0, &b.1), true)
                    } else {
                        f.ensures((&b.0, &b.1), false)
                    }
                },
    {
        let mut g = f;
        let mut out: Vec<Symbol> = Vec::new();
        rejected_tree(&self.root, &mut g, &mut out);
        let ghost t0 = self.root;
        let ghost before = self@;
        proof {
            assert(out@.subrange(0, 0) =~= Seq::<Symbol>::empty());
        }
        let mut j: usize = 0;
        while j < out.len()
            invariant
                self.wf(),
                self.height() <= height(t0),
                j <= out@.len(),
                before == content(t0),
                forall|q: Seq<u8>|
                    #[trigger] self@.contains_key(q) <==> (before.contains_key(q) && forall|k: int|
                        0 <= k < j ==> out@[k].key() != q),
                forall|q: Seq<u8>| #[trigger] self@.contains_key(q) ==> self@[q] == before[q],
            decreases out@.len() - j,
        {
            self.remove(&out[j]);
            j = j + 1;
        }
        proof {
            lemma_filter_outcome(f, t0, out@, self@);
        }
    }

    /// A copy of the map.
    pub fn duplicate(&self) -> (r: AvlMap<V>)
        ensures
            r == *self,
    {
        AvlMap { root: copy_tree(&self.root) }
    }

    /// Gives `key` the value `value` where it is bound; leaves the map as it
    /// was where it is not.
    pub fn replace(&mut self, key: &Symbol, value: &V)
        requires
            old(self).wf(),
        ensures
            final(self).wf(),
            final(self)@ == if old(self)@.contains_key(key.key()) {
                old(self)@.insert(key.key(), *value)
            } else {
                old(self)@
            },
            final(self).height() == old(self).height(),
    {
        let t = self.root.take();
        self.root = replace_tree(t, key, *value);
    }

    /// Removes the binding of `key`, if there is one.
    pub fn remove(&mut self, key: &Symbol)
        requires
            old(self).wf(),
        ensures
            final(self).wf(),
            final(self)@ == old(self)@.remove(key.key()),
            final(self).height() <= old(self).height(),
    {
        let t = self.root.take();
        self.root = remove_tree(t, key);
    }

    /// The binding with the smallest key.
    pub fn min_binding(&self) -> (r: Option<(&Symbol, &V)>)
        requires
            self.wf(),
        ensures
            match r {
                Some(b) => self.bindings().len() > 0 && self.bindings()[0] == (*b.0, *b.1),
                None => self.bindings().len() == 0,
            },
    {
        match &self.root {
            None => None,
            Some(n) => Some(min_binding_node(n)),
        }
    }

    /// The binding with the largest key.
    pub fn max_binding(&self) -> (r: Option<(&Symbol, &V)>)
        requires
            self.wf(),
        ensures
            match r {
                Some(b) => self.bindings().len() > 0 && self.bindings().last() == (*b.0, *b.1),
                None => self.bindings().len() == 0,
            },
    {
        match &self.root {
            None => None,
            Some(n) => Some(max_binding_node(n)),
        }
    }

    /// Binds `key` to `value`, replacing the value of an existing binding of
    /// that key. Fails, leaving the map as it was, only where the tree is too
    /// tall for a `u32` to count one more level.
    pub fn add(&mut self, key: &Symbol, value: &V) -> (r: Result<(), MapError>)
        requires
            old(self).wf(),
        ensures
            final(self).wf(),
            r.is_ok() == (old(self).height() < u32::MAX),
            r.is_ok() ==> final(self)@ == old(self)@.insert(key.key(), *value),
            r.is_ok() ==> final(self).height() <= old(self).height() + 1,
            r.is_ok() && !old(self)@.contains_key(key.key()) ==> final(self).bindings().contains((*key, *value)),
            r.is_ok() ==> forall|p: (Symbol, V)|
                #[trigger] old(self).bindings().contains(p) && p.0.key() != key.key() ==> final(self).bindings().contains(p),
            r.is_err() ==> r == Err::<(), MapError>(MapError::Overflow) && *final(self) == *old(self),
    {
        if tree_height(&self.root) == u32::MAX {
            return Err(MapError::Overflow);
        }
        let t = self.root.take();
        self.root = Some(add_tree(t, key, *value));
        Ok(())
    }
}

impl<V: Copy + PartialEq> AvlMap<V> {
    /// Combines two maps with the same keys key by key: each value becomes
    /// `f(v1, v2)`, except where `v1` and `v2` are equal, which keeps `v1`
    /// without calling `f`. Maps with different key sets are refused.
    pub fn map2z<F: FnMut(&V, &V) -> V>(&mut self, other: &Self, f: F) -> (r: Result<(), MapError>)
        requires
            old(self).wf(),
            other.wf(),
            forall|a: &V, b: &V| f.requires((a, b)),
        ensures
            final(self).wf(),
            final(self).height() == old(self).height(),
            r.is_ok() == (old(self)@.dom() == other@.dom()),
            r.is_err() ==> r == Err::<(), MapError>(MapError::KeysetMismatch) && final(self)@
                == old(self)@,
            r.is_ok() ==> final(self)@.dom() == old(self)@.dom() && forall|q: Seq<u8>|
                #[trigger] old(self)@.contains_key(q) ==> merged(
                    f,
                    old(self)@[q],
                    other@[q],
                    final(self)@[q],
                ),
    {
        if !same_keys(&self.root, &other.root) {
            return Err(MapError::KeysetMismatch);
        }
        let mut g = f;
        let t = self.root.take();
        self.root = map2z_tree(t, &other.root, &mut g);
        Ok(())
    }

    /// Calls `f(k, v1, v2)`, in ascending order of keys, on every key whose
    /// values in the two maps differ. Maps with different key sets are refused.
    pub fn iter2z<F: FnMut(&Symbol, &V, &V)>(&self, other: &Self, f: F) -> (r: Result<(), MapError>)
        requires
            self.wf(),
            other.wf(),
            forall|k: &Symbol, a: &V, b: &V| f.requires((k, a, b)),
        ensures
            r.is_ok() == (self@.dom() == other@.dom()),
            r.is_err() ==> r == Err::<(), MapError>(MapError::KeysetMismatch),
            r.is_ok() ==> forall|i: int|
                0 <= i < self.bindings().len() && unequal(
                    (#[trigger] self.bindings()[i]).1,
                    other@[self.bindings()[i].0.key()],
                ) ==> f.ensures(
                    (&self.bindings()[i].0, &self.bindings()[i].1, &other@[self.bindings()[i].0.key()]),
                    (),
                ),
    {
        if !same_keys(&self.root, &other.root) {
            return Err(MapError::KeysetMismatch);
        }
        let mut g = f;
        iter2z_tree(&self.root, &other.root, &mut g);
        Ok(())
    }

    /// Folds `f` over the keys of two maps with the same keys, in ascending
    /// order, skipping the keys whose two values are equal. Maps with
    /// different key sets are refused.
    pub fn fold2z<F: FnMut(&Symbol, &V, &V, &V) -> V>(&mut self, other: &Self, base: &V, f: F) -> (r:
        Result<V, MapError>)
        requires
            old(self).wf(),
            other.wf(),
            forall|k: &Symbol, a: &V, b: &V, c: &V| f.requires((k, a, b, c)),
        ensures
            final(self).wf(),
            *final(self) == *old(self),
            r.is_ok() == (old(self)@.dom() == other@.dom()),
            r.is_err() ==> r == Err::<V, MapError>(MapError::KeysetMismatch),
            r.is_ok() ==> exists|accs: Seq<V>|
                fold2z_trace(f, old(self).bindings(), other@, accs) && accs[0] == *base
                    && accs.last() == r.unwrap(),
    {
        if !same_keys(&self.root, &other.root) {
            return Err(MapError::KeysetMismatch);
        }
        let mut g = f;
        let (v, Ghost(accs)) = fold2z_tree(&self.root, &other.root, *base, &mut g);
        Ok(v)
    }

    /// Whether `f(k, v1, v2)` holds on every key whose values in the two maps
    /// differ; stops at the first that fails. Maps with different key sets are
    /// refused.
    pub fn for_all2z<F: FnMut(&Symbol, &V, &V) -> bool>(&mut self, other: &Self, f: F) -> (r: Result<
        bool,
        MapError,
    >)
        requires
            old(self).wf(),
            other.wf(),
            forall|k: &Symbol, a: &V, b: &V| f.requires((k, a, b)),
        ensures
            final(self).wf(),
            *final(self) == *old(self),
            r.is_ok() == (old(self)@.dom() == other@.dom()),
            r.is_err() ==> r == Err::<bool, MapError>(MapError::KeysetMismatch),
            r == Ok::<bool, MapError>(true) ==> forall|i: int|
                0 <= i < old(self).bindings().len() ==> passes2z(
                    f,
                    (#[trigger] old(self).bindings()[i]).0,
                    old(self).bindings()[i].1,
                    other@[old(self).bindings()[i].0.key()],
                ),
            r == Ok::<bool, MapError>(false) ==> exists|i: int|
                0 <= i < old(self).bindings().len() && differs(
                    (#[trigger] old(self).bindings()[i]).1,
                    other@[old(self).bindings()[i].0.key()],
                ) && f.ensures(
                    (
                        &old(self).bindings()[i].0,
                        &old(self).bindings()[i].1,
                        &other@[old(self).bindings()[i].0.key()],
                    ),
                    false,
                ),
    {
        if !same_keys(&self.root, &other.root) {
            return Err(MapError::KeysetMismatch);
        }
        let mut g = f;
        let b = for_all2z_tree(&self.root, &other.root, &mut g);
        proof {
            if !b {
                let bs = bindings(self.root);
                let o = content(other.root);
                let i = choose|i: int|
                    0 <= i < bs.len() && differs((#[trigger] bs[i]).1, o[bs[i].0.key()]) && g.ensures((&bs[i].0, &bs[i].1, &o[bs[i].0.key()]), false);
                assert(differs(self.bindings()[i].1, other@[self.bindings()[i].0.key()]));
                assert(f.ensures((&self.bindings()[i].0, &self.bindings()[i].1, &other@[self.bindings()[i].0.key()]), false));
            }
        }
        Ok(b)
    }
}

/// Every node of a well-formed map is balanced: the heights of its two
/// subtrees differ by at most 2.
pub proof fn lemma_avl_balanced<V: Copy>(m: &AvlMap<V>)
    requires
        m.wf(),
    ensures
        m.balanced(),
{
    lemma_wf_balanced(m.root);
}

/// Removing a key just added gives the map with that key removed, and
/// looking the key up right after adding it gives the added value.
pub proof fn lemma_add_remove_round_trip<V: Copy>(m: &AvlMap<V>, k: &Symbol, v: V)
    requires
        m.wf(),
    ensures
        m@.insert(k.key(), v).remove(k.key()) == m@.remove(k.key()),
        m@.insert(k.key(), v).contains_key(k.key()),
        m@.insert(k.key(), v)[k.key()] == v,
{
    assert(m@.insert(k.key(), v).remove(k.key()) =~= m@.remove(k.key()));
}

/// The bindings that `fold` and `iter` visit come in strictly ascending
/// order of keys, and they are exactly the bindings of the map.
pub proof fn lemma_bindings_ascending<V: Copy>(m: &AvlMap<V>)
    requires
        m.wf(),
    ensures
        forall|i: int, j: int|
            0 <= i < j < m.bindings().len() ==> bytes_lt(
                #[trigger] m.bindings()[i].0.key(),
                #[trigger] m.bindings()[j].0.key(),
            ),
        forall|i: int|
            0 <= i < m.bindings().len() ==> #[trigger] m@.contains_key(m.bindings()[i].0.key())
                && m@[m.bindings()[i].0.key()] == m.bindings()[i].1,
        forall|q: Seq<u8>|
            #[trigger] m@.contains_key(q) ==> exists|i: int|
                0 <= i < m.bindings().len() && m.bindings()[i].0.key() == q,
{
    lemma_bindings_content(m.root);
    assert forall|q: Seq<u8>| #[trigger] m@.contains_key(q) implies exists|i: int|
        0 <= i < m.bindings().len() && m.bindings()[i].0.key() == q by {
        assert(content(m.root).dom().contains(q));
        let i = choose|i: int| 0 <= i < bindings(m.root).len() && bindings(m.root)[i].0.key() == q;
        assert(m.bindings()[i].0.key() == q);
    }
}

proof fn lemma_content_finite<V>(t: Option<Box<Node<V>>>)
    ensures
        content(t).dom().finite(),
    decreases t,
{
    if let Some(n) = t {
        lemma_content_finite(n.left);
        lemma_content_finite(n.right);
        let u = content(n.left).union_prefer_right(content(n.right));
        assert(u.dom() =~= content(n.left).dom().union(content(n.right).dom()));
        assert(content(t).dom() =~= u.dom().insert(n.key.key()));
    }
}

} // verus!
