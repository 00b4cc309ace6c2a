//! Which names assignments make equivalent does not depend on the order of
//! the assignments: two names are equivalent exactly when a chain of
//! assignments leads from one to the other.

use crate::assignments::{spec_idle_pair, spec_in_group, spec_joined, spec_joined_by};
use vstd::prelude::*;

verus! {

/// The relation that the first `n` assignments make, from no groups.
pub open spec fn spec_same(
    lefts: Seq<Seq<char>>,
    rights: Seq<Seq<char>>,
    n: nat,
    a: Seq<char>,
    b: Seq<char>,
) -> bool {
    spec_joined_by(Seq::empty(), lefts, rights, n, a, b)
}

/// Whether one of the first `n` assignments, one that says something,
/// assigns `x` and `y` to each other.
pub open spec fn spec_linked(
    lefts: Seq<Seq<char>>,
    rights: Seq<Seq<char>>,
    n: nat,
    x: Seq<char>,
    y: Seq<char>,
) -> bool {
    exists|i: int|
        0 <= i < n && !spec_idle_pair(#[trigger] lefts[i], rights[i]) && ((x == lefts[i] && y
            == rights[i]) || (x == rights[i] && y == lefts[i]))
}

/// Whether each name of `path` is linked with the next.
pub open spec fn spec_chain(
    lefts: Seq<Seq<char>>,
    rights: Seq<Seq<char>>,
    n: nat,
    path: Seq<Seq<char>>,
) -> bool {
    path.len() >= 1 && forall|k: int|
        0 <= k < path.len() - 1 ==> spec_linked(lefts, rights, n, #[trigger] path[k], path[k + 1])
}

/// Whether a chain of assignments leads from `a` to `b`.
pub open spec fn spec_chained(
    lefts: Seq<Seq<char>>,
    rights: Seq<Seq<char>>,
    n: nat,
    a: Seq<char>,
    b: Seq<char>,
) -> bool {
    exists|path: Seq<Seq<char>>|
        #[trigger] spec_chain(lefts, rights, n, path) && path[0] == a && path.last() == b
}

/// Every name is equivalent to itself.
pub proof fn lemma_same_reflexive(lefts: Seq<Seq<char>>, rights: Seq<Seq<char>>, n: nat, a: Seq<char>)
    ensures
        spec_same(lefts, rights, n, a, a),
    decreases n,
{
    if n > 0 {
        lemma_same_reflexive(lefts, rights, (n - 1) as nat, a);
    }
}

/// More assignments keep equivalent what was equivalent.
pub proof fn lemma_same_grows(
    lefts: Seq<Seq<char>>,
    rights: Seq<Seq<char>>,
    m: nat,
    n: nat,
    a: Seq<char>,
    b: Seq<char>,
)
    requires
        m <= n,
        spec_same(lefts, rights, m, a, b),
    ensures
        spec_same(lefts, rights, n, a, b),
    decreases n - m,
{
    if m < n {
        lemma_same_grows(lefts, rights, m, (n - 1) as nat, a, b);
    }
}

/// Equivalence does not depend on the order of the two names.
pub proof fn lemma_same_symmetric(
    lefts: Seq<Seq<char>>,
    rights: Seq<Seq<char>>,
    n: nat,
    a: Seq<char>,
    b: Seq<char>,
)
    ensures
        spec_same(lefts, rights, n, a, b) == spec_same(lefts, rights, n, b, a),
    decreases n,
{
    if n > 0 {
        let m = (n - 1) as nat;
        let l = lefts[n - 1];
        let r = rights[n - 1];
        lemma_same_symmetric(lefts, rights, m, a, b);
        lemma_same_symmetric(lefts, rights, m, a, l);
        lemma_same_symmetric(lefts, rights, m, a, r);
        lemma_same_symmetric(lefts, rights, m, b, l);
        lemma_same_symmetric(lefts, rights, m, b, r);
    } else {
        assert(forall|g: int| !(#[trigger] spec_in_group(Seq::empty(), g, a)));
        assert(forall|g: int| !(#[trigger] spec_in_group(Seq::empty(), g, b)));
    }
}

/// Names equivalent to one name are equivalent to each other.
pub proof fn lemma_same_transitive(
    lefts: Seq<Seq<char>>,
    rights: Seq<Seq<char>>,
    n: nat,
    a: Seq<char>,
    b: Seq<char>,
    c: Seq<char>,
)
    requires
        spec_same(lefts, rights, n, a, b),
        spec_same(lefts, rights, n, b, c),
    ensures
        spec_same(lefts, rights, n, a, c),
    decreases n,
{
    if n == 0 {
        assert(forall|g: int| !(#[trigger] spec_in_group(Seq::empty(), g, a)));
        assert(forall|g: int| !(#[trigger] spec_in_group(Seq::empty(), g, b)));
    } else {
        let m = (n - 1) as nat;
        let l = lefts[n - 1];
        let r = rights[n - 1];
        let s = |x: Seq<char>, y: Seq<char>| spec_same(lefts, rights, m, x, y);
        if spec_idle_pair(l, r) {
            lemma_same_transitive(lefts, rights, m, a, b, c);
        } else {
            // what the pair adds to a relation that is an equivalence is one
            lemma_same_symmetric(lefts, rights, m, b, l);
            lemma_same_symmetric(lefts, rights, m, b, r);
            lemma_same_symmetric(lefts, rights, m, c, l);
            lemma_same_symmetric(lefts, rights, m, c, r);
            let ab = s(a, b);
            let bc = s(b, c);
            if ab && bc {
                lemma_same_transitive(lefts, rights, m, a, b, c);
            } else if ab {
                // b and c are joined through the pair
                if s(b, l) && s(c, r) {
                    lemma_same_transitive(lefts, rights, m, a, b, l);
                } else {
                    lemma_same_transitive(lefts, rights, m, a, b, r);
                }
            } else if bc {
                lemma_same_symmetric(lefts, rights, m, c, b);
                if s(a, l) && s(b, r) {
                    lemma_same_transitive(lefts, rights, m, c, b, r);
                } else {
                    lemma_same_transitive(lefts, rights, m, c, b, l);
                }
            } else {
                // both through the pair
                if s(a, l) && s(b, r) {
                    if s(b, l) && s(c, r) {
                        // l and r were equivalent before, through b
                        lemma_same_transitive(lefts, rights, m, l, b, r);
                        lemma_same_transitive(lefts, rights, m, a, l, r);
                        lemma_same_symmetric(lefts, rights, m, c, r);
                        lemma_same_transitive(lefts, rights, m, a, r, c);
                    } else {
                        // a with l, c with l
                        lemma_same_transitive(lefts, rights, m, a, l, c);
                    }
                } else {
                    // a with r, b with l
                    if s(b, l) && s(c, r) {
                        lemma_same_transitive(lefts, rights, m, a, r, c);
                    } else {
                        // b with r too: l and r were equivalent before
                        lemma_same_transitive(lefts, rights, m, r, b, l);
                        lemma_same_transitive(lefts, rights, m, a, r, l);
                        lemma_same_transitive(lefts, rights, m, a, l, c);
                    }
                }
            }
        }
    }
}

/// Names that an assignment links are equivalent.
pub proof fn lemma_linked_same(
    lefts: Seq<Seq<char>>,
    rights: Seq<Seq<char>>,
    n: nat,
    x: Seq<char>,
    y: Seq<char>,
)
    requires
        spec_linked(lefts, rights, n, x, y),
    ensures
        spec_same(lefts, rights, n, x, y),
{
    let i = choose|i: int|
        0 <= i < n && !spec_idle_pair(#[trigger] lefts[i], rights[i]) && ((x == lefts[i] && y
            == rights[i]) || (x == rights[i] && y == lefts[i]));
    lemma_same_reflexive(lefts, rights, i as nat, x);
    lemma_same_reflexive(lefts, rights, i as nat, y);
    assert(spec_same(lefts, rights, (i + 1) as nat, x, y));
    lemma_same_grows(lefts, rights, (i + 1) as nat, n, x, y);
}

/// The names of a chain are equivalent to its first name.
pub proof fn lemma_chain_same(
    lefts: Seq<Seq<char>>,
    rights: Seq<Seq<char>>,
    n: nat,
    path: Seq<Seq<char>>,
)
    requires
        spec_chain(lefts, rights, n, path),
    ensures
        spec_same(lefts, rights, n, path[0], path.last()),
    decreases path.len(),
{
    if path.len() == 1 {
        lemma_same_reflexive(lefts, rights, n, path[0]);
    } else {
        let head = path.drop_last();
        assert forall|k: int| 0 <= k < head.len() - 1 implies spec_linked(
            lefts,
            rights,
            n,
            #[trigger] head[k],
            head[k + 1],
        ) by {
            assert(head[k] == path[k] && head[k + 1] == path[k + 1]);
        }
        lemma_chain_same(lefts, rights, n, head);
        let k = path.len() - 2;
        assert(spec_linked(lefts, rights, n, path[k], path[k + 1]));
        lemma_linked_same(lefts, rights, n, path[k], path[k + 1]);
        assert(head.last() == path[k]);
        assert(head[0] == path[0]);
        lemma_same_transitive(lefts, rights, n, path[0], path[k], path.last());
    }
}

/// A chain read backwards is a chain.
pub proof fn lemma_chain_back(
    lefts: Seq<Seq<char>>,
    rights: Seq<Seq<char>>,
    n: nat,
    path: Seq<Seq<char>>,
)
    requires
        spec_chain(lefts, rights, n, path),
    ensures
        spec_chain(lefts, rights, n, path.reverse()),
        path.reverse()[0] == path.last(),
        path.reverse().last() == path[0],
{
    let back = path.reverse();
    assert forall|k: int| 0 <= k < back.len() - 1 implies spec_linked(
        lefts,
        rights,
        n,
        #[trigger] back[k],
        back[k + 1],
    ) by {
        let j = path.len() - 2 - k;
        assert(back[k] == path[j + 1]);
        assert(back[k + 1] == path[j]);
        assert(spec_linked(lefts, rights, n, path[j], path[j + 1]));
        let i = choose|i: int|
            0 <= i < n && !spec_idle_pair(#[trigger] lefts[i], rights[i]) && ((path[j] == lefts[i]
                && path[j + 1] == rights[i]) || (path[j] == rights[i] && path[j + 1] == lefts[i]));
        assert(0 <= i < n && !spec_idle_pair(lefts[i], rights[i]) && ((back[k] == lefts[i]
            && back[k + 1] == rights[i]) || (back[k] == rights[i] && back[k + 1] == lefts[i])));
    }
}

/// Two chains of which the first ends on a name linked with the name that
/// the second starts with make one chain.
pub proof fn lemma_chain_joined(
    lefts: Seq<Seq<char>>,
    rights: Seq<Seq<char>>,
    n: nat,
    p: Seq<Seq<char>>,
    q: Seq<Seq<char>>,
)
    requires
        spec_chain(lefts, rights, n, p),
        spec_chain(lefts, rights, n, q),
        spec_linked(lefts, rights, n, p.last(), q[0]),
    ensures
        spec_chain(lefts, rights, n, p + q),
        (p + q)[0] == p[0],
        (p + q).last() == q.last(),
{
    let u = p + q;
    assert forall|k: int| 0 <= k < u.len() - 1 implies spec_linked(
        lefts,
        rights,
        n,
        #[trigger] u[k],
        u[k + 1],
    ) by {
        if k < p.len() - 1 {
            assert(u[k] == p[k] && u[k + 1] == p[k + 1]);
        } else if k == p.len() - 1 {
            assert(u[k] == p.last() && u[k + 1] == q[0]);
        } else {
            let j = k - p.len();
            assert(u[k] == q[j] && u[k + 1] == q[j + 1]);
        }
    }
}

/// A chain of the first assignments is a chain of more.
pub proof fn lemma_chain_grows(
    lefts: Seq<Seq<char>>,
    rights: Seq<Seq<char>>,
    m: nat,
    n: nat,
    path: Seq<Seq<char>>,
)
    requires
        m <= n,
        spec_chain(lefts, rights, m, path),
    ensures
        spec_chain(lefts, rights, n, path),
{
    assert forall|k: int| 0 <= k < path.len() - 1 implies spec_linked(
        lefts,
        rights,
        n,
        #[trigger] path[k],
        path[k + 1],
    ) by {
        assert(spec_linked(lefts, rights, m, path[k], path[k + 1]));
        let i = choose|i: int|
            0 <= i < m && !spec_idle_pair(#[trigger] lefts[i], rights[i]) && ((path[k] == lefts[i]
                && path[k + 1] == rights[i]) || (path[k] == rights[i] && path[k + 1] == lefts[i]));
        assert(0 <= i < n && !spec_idle_pair(lefts[i], rights[i]) && ((path[k] == lefts[i]
            && path[k + 1] == rights[i]) || (path[k] == rights[i] && path[k + 1] == lefts[i])));
    }
}

/// Equivalent names are the ends of a chain.
pub proof fn lemma_same_chained(
    lefts: Seq<Seq<char>>,
    rights: Seq<Seq<char>>,
    n: nat,
    a: Seq<char>,
    b: Seq<char>,
)
    requires
        spec_same(lefts, rights, n, a, b),
    ensures
        spec_chained(lefts, rights, n, a, b),
    decreases n,
{
    if n == 0 {
        assert(forall|g: int| !(#[trigger] spec_in_group(Seq::empty(), g, a)));
        let path = seq![a];
        assert(spec_chain(lefts, rights, n, path) && path[0] == a && path.last() == b);
    } else {
        let m = (n - 1) as nat;
        let l = lefts[n - 1];
        let r = rights[n - 1];
        if spec_same(lefts, rights, m, a, b) {
            lemma_same_chained(lefts, rights, m, a, b);
            let path = choose|path: Seq<Seq<char>>|
                #[trigger] spec_chain(lefts, rights, m, path) && path[0] == a && path.last() == b;
            lemma_chain_grows(lefts, rights, m, n, path);
        } else {
            // through the pair: from a to one side, over the pair, from the
            // other side to b
            let x = if spec_same(lefts, rights, m, a, l) && spec_same(lefts, rights, m, b, r) {
                l
            } else {
                r
            };
            let y = if x == l {
                r
            } else {
                l
            };
            assert(spec_same(lefts, rights, m, a, x) && spec_same(lefts, rights, m, b, y));
            lemma_same_chained(lefts, rights, m, a, x);
            lemma_same_chained(lefts, rights, m, b, y);
            let p = choose|path: Seq<Seq<char>>|
                #[trigger] spec_chain(lefts, rights, m, path) && path[0] == a && path.last() == x;
            let q = choose|path: Seq<Seq<char>>|
                #[trigger] spec_chain(lefts, rights, m, path) && path[0] == b && path.last() == y;
            lemma_chain_grows(lefts, rights, m, n, p);
            lemma_chain_grows(lefts, rights, m, n, q);
            lemma_chain_back(lefts, rights, n, q);
            let i = n - 1;
            assert(0 <= i < n && !spec_idle_pair(lefts[i], rights[i]) && ((x == lefts[i] && y
                == rights[i]) || (x == rights[i] && y == lefts[i])));
            assert(spec_linked(lefts, rights, n, x, y));
            lemma_chain_joined(lefts, rights, n, p, q.reverse());
            let path = p + q.reverse();
            assert(spec_chain(lefts, rights, n, path) && path[0] == a && path.last() == b);
        }
    }
}

/// Two names are equivalent exactly when a chain of assignments leads from
/// one to the other: assignments of a name to itself and assignments with
/// the wildcard on a side apart.
pub proof fn lemma_same_iff_chained(
    lefts: Seq<Seq<char>>,
    rights: Seq<Seq<char>>,
    n: nat,
    a: Seq<char>,
    b: Seq<char>,
)
    ensures
        spec_same(lefts, rights, n, a, b) <==> spec_chained(lefts, rights, n, a, b),
{
    if spec_same(lefts, rights, n, a, b) {
        lemma_same_chained(lefts, rights, n, a, b);
    }
    if spec_chained(lefts, rights, n, a, b) {
        let path = choose|path: Seq<Seq<char>>|
            #[trigger] spec_chain(lefts, rights, n, path) && path[0] == a && path.last() == b;
        lemma_chain_same(lefts, rights, n, path);
    }
}

/// The order of the assignments does not matter: two lists of assignments
/// that link the same names, as a list and the same list in another order
/// do, make the same names equivalent.
pub proof fn lemma_order_does_not_matter(
    lefts1: Seq<Seq<char>>,
    rights1: Seq<Seq<char>>,
    n1: nat,
    lefts2: Seq<Seq<char>>,
    rights2: Seq<Seq<char>>,
    n2: nat,
    a: Seq<char>,
    b: Seq<char>,
)
    requires
        forall|x: Seq<char>, y: Seq<char>|
            spec_linked(lefts1, rights1, n1, x, y) == spec_linked(lefts2, rights2, n2, x, y),
    ensures
        spec_same(lefts1, rights1, n1, a, b) == spec_same(lefts2, rights2, n2, a, b),
{
    lemma_same_iff_chained(lefts1, rights1, n1, a, b);
    lemma_same_iff_chained(lefts2, rights2, n2, a, b);
    if spec_chained(lefts1, rights1, n1, a, b) {
        let path = choose|path: Seq<Seq<char>>|
            #[trigger] spec_chain(lefts1, rights1, n1, path) && path[0] == a && path.last() == b;
        assert(spec_chain(lefts2, rights2, n2, path));
    }
    if spec_chained(lefts2, rights2, n2, a, b) {
        let path = choose|path: Seq<Seq<char>>|
            #[trigger] spec_chain(lefts2, rights2, n2, path) && path[0] == a && path.last() == b;
        assert(spec_chain(lefts1, rights1, n1, path));
    }
}

/// The relation that the first `n` assignments make depends on those
/// assignments alone.
pub proof fn lemma_same_of_first(
    lefts1: Seq<Seq<char>>,
    rights1: Seq<Seq<char>>,
    lefts2: Seq<Seq<char>>,
    rights2: Seq<Seq<char>>,
    n: nat,
    a: Seq<char>,
    b: Seq<char>,
)
    requires
        forall|i: int| 0 <= i < n ==> lefts1[i] == lefts2[i] && rights1[i] == rights2[i],
    ensures
        spec_same(lefts1, rights1, n, a, b) == spec_same(lefts2, rights2, n, a, b),
    decreases n,
{
    if n > 0 {
        let m = (n - 1) as nat;
        let l = lefts1[n - 1];
        let r = rights1[n - 1];
        lemma_same_of_first(lefts1, rights1, lefts2, rights2, m, a, b);
        lemma_same_of_first(lefts1, rights1, lefts2, rights2, m, a, l);
        lemma_same_of_first(lefts1, rights1, lefts2, rights2, m, a, r);
        lemma_same_of_first(lefts1, rights1, lefts2, rights2, m, b, l);
        lemma_same_of_first(lefts1, rights1, lefts2, rights2, m, b, r);
    }
}

/// Assignments added to groups that earlier assignments made give what all
/// the assignments, the earlier ones first, make from no groups.
pub proof fn lemma_same_continued(
    groups: Seq<Seq<Seq<char>>>,
    lefts1: Seq<Seq<char>>,
    rights1: Seq<Seq<char>>,
    lefts2: Seq<Seq<char>>,
    rights2: Seq<Seq<char>>,
    n: nat,
    a: Seq<char>,
    b: Seq<char>,
)
    requires
        lefts1.len() == rights1.len(),
        n <= lefts2.len(),
        n <= rights2.len(),
        forall|x: Seq<char>, y: Seq<char>| #[trigger]
            spec_joined(groups, x, y) == spec_same(lefts1, rights1, lefts1.len(), x, y),
    ensures
        spec_joined_by(groups, lefts2, rights2, n, a, b) == spec_same(
            lefts1 + lefts2,
            rights1 + rights2,
            lefts1.len() + n,
            a,
            b,
        ),
    decreases n,
{
    let lefts = lefts1 + lefts2;
    let rights = rights1 + rights2;
    if n == 0 {
        assert(spec_joined(groups, a, b) == spec_same(lefts1, rights1, lefts1.len(), a, b));
        lemma_same_of_first(lefts1, rights1, lefts, rights, lefts1.len(), a, b);
    } else {
        let m = (n - 1) as nat;
        let l = lefts2[n - 1];
        let r = rights2[n - 1];
        assert(lefts[lefts1.len() + n - 1] == l);
        assert(rights[lefts1.len() + n - 1] == r);
        lemma_same_continued(groups, lefts1, rights1, lefts2, rights2, m, a, b);
        lemma_same_continued(groups, lefts1, rights1, lefts2, rights2, m, a, l);
        lemma_same_continued(groups, lefts1, rights1, lefts2, rights2, m, a, r);
        lemma_same_continued(groups, lefts1, rights1, lefts2, rights2, m, b, l);
        lemma_same_continued(groups, lefts1, rights1, lefts2, rights2, m, b, r);
    }
}

} // verus!
