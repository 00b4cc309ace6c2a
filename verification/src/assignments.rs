//! Signal names declared equivalent by assignments, kept as disjoint groups.

use crate::info::{spec_distinct, CompInfo};
use crate::names::{is_wildcard, names_view, same_name, spec_is_wildcard};
use vstd::prelude::*;

verus! {

/// Whether `name` belongs to the group number `g` of `groups`.
pub open spec fn spec_in_group(groups: Seq<Seq<Seq<char>>>, g: int, name: Seq<char>) -> bool {
    0 <= g < groups.len() && groups[g].contains(name)
}

/// Whether some group of `groups` holds `name`.
pub open spec fn spec_mentioned(groups: Seq<Seq<Seq<char>>>, name: Seq<char>) -> bool {
    exists|g: int| spec_in_group(groups, g, name)
}

/// Whether `a` and `b` name the same signal: they are the same name, or one
/// group holds both.
pub open spec fn spec_joined(groups: Seq<Seq<Seq<char>>>, a: Seq<char>, b: Seq<char>) -> bool {
    a == b || exists|g: int| spec_in_group(groups, g, a) && spec_in_group(groups, g, b)
}

/// Whether no name belongs to two groups.
pub open spec fn spec_disjoint(groups: Seq<Seq<Seq<char>>>) -> bool {
    forall|g1: int, g2: int, name: Seq<char>|
        spec_in_group(groups, g1, name) && spec_in_group(groups, g2, name) ==> g1 == g2
}

/// Whether an assignment of `right` to `left` says nothing: the two are the
/// same name, or one of them is the wildcard.
pub open spec fn spec_idle_pair(left: Seq<char>, right: Seq<char>) -> bool {
    left == right || spec_is_wildcard(left) || spec_is_wildcard(right)
}

/// Whether `a` and `b` name the same signal once `left` and `right` are
/// assigned to each other, given which names did so before.
pub open spec fn spec_joined_with(
    groups: Seq<Seq<Seq<char>>>,
    left: Seq<char>,
    right: Seq<char>,
    a: Seq<char>,
    b: Seq<char>,
) -> bool {
    if spec_idle_pair(left, right) {
        spec_joined(groups, a, b)
    } else {
        ||| spec_joined(groups, a, b)
        ||| spec_joined(groups, a, left) && spec_joined(groups, b, right)
        ||| spec_joined(groups, a, right) && spec_joined(groups, b, left)
    }
}

/// The number of the first of the first `n` groups that holds `name`.
pub open spec fn spec_find(groups: Seq<Seq<Seq<char>>>, name: Seq<char>, n: nat) -> Option<int>
    decreases n,
{
    if n == 0 {
        None
    } else {
        match spec_find(groups, name, (n - 1) as nat) {
            Some(g) => Some(g),
            None => if groups[n - 1].contains(name) {
                Some(n - 1)
            } else {
                None
            },
        }
    }
}

/// The number of the first group that holds `name`.
pub open spec fn spec_group_of(groups: Seq<Seq<Seq<char>>>, name: Seq<char>) -> Option<int> {
    spec_find(groups, name, groups.len())
}

/// The groups after `left` and `right` are assigned to each other. An
/// assignment that says nothing leaves them as they are. Where neither name
/// is in a group, the two make a new group, the last. Where one is, the
/// other joins its group, at the end. Where both are, in two groups, the
/// group of the higher number is taken out, the last group takes its place,
/// and its names are put at the end of the other group.
pub open spec fn spec_add_pair(
    groups: Seq<Seq<Seq<char>>>,
    left: Seq<char>,
    right: Seq<char>,
) -> Seq<Seq<Seq<char>>> {
    if spec_idle_pair(left, right) {
        groups
    } else {
        match (spec_group_of(groups, left), spec_group_of(groups, right)) {
            (None, None) => groups.push(seq![left, right]),
            (Some(i), None) => groups.update(i, groups[i].push(right)),
            (None, Some(i)) => groups.update(i, groups[i].push(left)),
            (Some(i), Some(j)) => if i == j {
                groups
            } else {
                let lo = if i < j {
                    i
                } else {
                    j
                };
                let hi = if i < j {
                    j
                } else {
                    i
                };
                groups.update(hi, groups.last()).drop_last().update(lo, groups[lo] + groups[hi])
            },
        }
    }
}

/// The groups after the first `n` names of `lefts` are assigned to the
/// names of `rights` in the same places, one after the other.
pub open spec fn spec_add_pairs(
    groups: Seq<Seq<Seq<char>>>,
    lefts: Seq<Seq<char>>,
    rights: Seq<Seq<char>>,
    n: nat,
) -> Seq<Seq<Seq<char>>>
    decreases n,
{
    if n == 0 {
        groups
    } else {
        spec_add_pair(
            spec_add_pairs(groups, lefts, rights, (n - 1) as nat),
            lefts[n - 1],
            rights[n - 1],
        )
    }
}

/// Whether every group holds two names at least, and none twice.
pub open spec fn spec_shaped(groups: Seq<Seq<Seq<char>>>) -> bool {
    forall|g: int|
        0 <= g < groups.len() ==> (#[trigger] groups[g]).len() >= 2 && spec_distinct(groups[g])
}

/// A group found among the first groups is the group found among more.
pub proof fn lemma_find_stays(groups: Seq<Seq<Seq<char>>>, name: Seq<char>, n: nat, m: nat)
    requires
        n <= m,
        spec_find(groups, name, n) is Some,
    ensures
        spec_find(groups, name, m) == spec_find(groups, name, n),
    decreases m - n,
{
    if n < m {
        lemma_find_stays(groups, name, n, (m - 1) as nat);
    }
}

/// The group found for a name holds it, and no group is found for a name
/// that no group holds.
pub proof fn lemma_find(groups: Seq<Seq<Seq<char>>>, name: Seq<char>, n: nat)
    requires
        n <= groups.len(),
    ensures
        match spec_find(groups, name, n) {
            Some(g) => 0 <= g < n && groups[g].contains(name) && forall|h: int|
                0 <= h < g ==> !(#[trigger] groups[h]).contains(name),
            None => forall|h: int| 0 <= h < n ==> !(#[trigger] groups[h]).contains(name),
        },
    decreases n,
{
    if n > 0 {
        lemma_find(groups, name, (n - 1) as nat);
    }
}

/// The groups as sequences of names.
pub open spec fn groups_view(v: Seq<Vec<String>>) -> Seq<Seq<Seq<char>>> {
    Seq::new(v.len(), |g: int| names_view(v[g]@))
}

/// The groups of signal names that assignments have declared equivalent.
/// After `a = b` and `c = d` there are the groups `[a, b]` and `[c, d]`;
/// after `a = c` as well there is the one group of all four.
#[derive(Clone, Debug)]
pub struct Assignments {
    v: Vec<Vec<String>>,
}

/// The two sides of an assignment differ in length.
#[derive(Debug, Copy, Clone, PartialEq, Eq, Structural)]
pub struct Unbalanced {
    pub left: usize,
    pub right: usize,
}

impl View for Assignments {
    type V = Seq<Seq<Seq<char>>>;

    closed spec fn view(&self) -> Seq<Seq<Seq<char>>> {
        groups_view(self.v@)
    }
}

impl Assignments {
    /// No name is in two groups, no group holds the wildcard, and every
    /// group holds two names at least, and none twice.
    pub open spec fn wf(self) -> bool {
        &&& spec_disjoint(self@)
        &&& forall|g: int, name: Seq<char>| spec_in_group(self@, g, name) ==> !spec_is_wildcard(name)
        &&& spec_shaped(self@)
    }

    pub fn new() -> (r: Self)
        ensures
            r@ == Seq::<Seq<Seq<char>>>::empty(),
            r.wf(),
    {
        let r = Self { v: Vec::new() };
        assert(r@ =~= Seq::<Seq<Seq<char>>>::empty());
        r
    }

    /// How many groups there are.
    pub fn len(&self) -> (n: usize)
        ensures
            n == self@.len(),
    {
        self.v.len()
    }

    /// The names of the group number `g`.
    pub fn group(&self, g: usize) -> (r: &Vec<String>)
        requires
            g < self@.len(),
        ensures
            names_view(r@) == self@[g as int],
    {
        &self.v[g]
    }

    /// The number of the first group that holds `name`.
    pub fn find(&self, name: &str) -> (r: Option<usize>)
        ensures
            match r {
                Some(g) => spec_in_group(self@, g as int, name@) && spec_group_of(self@, name@)
                    == Some(g as int),
                None => !spec_mentioned(self@, name@) && spec_group_of(self@, name@) is None,
            },
    {
        let mut g: usize = 0;
        while g < self.v.len()
            invariant
                g <= self.v.len(),
                spec_find(self@, name@, g as nat) is None,
                forall|h: int| 0 <= h < g ==> !spec_in_group(self@, h, name@),
            decreases self.v.len() - g,
        {
            let mut i: usize = 0;
            while i < self.v[g as usize].len()
                invariant
                    g < self.v.len(),
                    i <= self.v[g as int].len(),
                    spec_find(self@, name@, g as nat) is None,
                    forall|j: int| 0 <= j < i ==> self.v[g as int]@[j]@ != name@,
                decreases self.v[g as int].len() - i,
            {
                if same_name(self.v[g][i].as_str(), name) {
                    assert(self@[g as int][i as int] == name@);
                    proof {
                        assert(self@[g as int].contains(name@));
                        assert(spec_find(self@, name@, (g + 1) as nat) == Some(g as int));
                        lemma_find_stays(self@, name@, (g + 1) as nat, self@.len());
                    }
                    return Some(g);
                }
                i += 1;
            }
            assert(!spec_in_group(self@, g as int, name@)) by {
                if self@[g as int].contains(name@) {
                    let j = choose|j: int| 0 <= j < self@[g as int].len() && self@[g as int][j] == name@;
                    assert(self.v[g as int]@[j]@ != name@);
                }
            }
            g += 1;
        }
        None
    }

    /// Declares `left` and `right` equivalent, unless they are the same name
    /// or one of them is the wildcard.
    pub fn add_pair(&mut self, left: &str, right: &str)
        requires
            old(self).wf(),
        ensures
            final(self).wf(),
            final(self)@ == spec_add_pair(old(self)@, left@, right@),
            forall|a: Seq<char>, b: Seq<char>|
                spec_joined(final(self)@, a, b) <==> spec_joined_with(old(self)@, left@, right@, a, b),
            forall|a: Seq<char>|
                spec_mentioned(final(self)@, a) <==> spec_mentioned(old(self)@, a) || (!spec_idle_pair(
                    left@,
                    right@,
                ) && (a == left@ || a == right@)),
    {
        if same_name(left, right) || is_wildcard(left) || is_wildcard(right) {
            return ;
        }
        let ghost pre = self@;
        let ghost l = left@;
        let ghost r = right@;
        let left_pos = self.find(left);
        let right_pos = self.find(right);
        match (left_pos, right_pos) {
            (None, None) => {
                let mut group: Vec<String> = Vec::new();
                group.push(String::from_str(left));
                group.push(String::from_str(right));
                assert(names_view(group@) =~= seq![l, r]);
                self.v.push(group);
                let ghost post = self@;
                assert(post =~= pre.push(seq![l, r]));
                proof {
                    let n = pre.len() as int;
                    assert(seq![l, r][0] == l && seq![l, r][1] == r);
                    assert forall|g: int, a: Seq<char>| spec_in_group(post, g, a) <==> (spec_in_group(
                        pre,
                        g,
                        a,
                    ) || (g == n && (a == l || a == r))) by {
                        if 0 <= g < n {
                            assert(post[g] == pre[g]);
                        }
                    }
                    lemma_joined_after_new_group(pre, post, l, r);
                    assert(spec_shaped(post)) by {
                        assert forall|g: int| 0 <= g < post.len() implies (#[trigger] post[g]).len()
                            >= 2 && spec_distinct(post[g]) by {
                            if g < n {
                                assert(post[g] == pre[g]);
                            }
                        }
                    }
                }
            },
            (Some(i), None) => {
                let ghost before = self.v@;
                self.v[i].push(String::from_str(right));
                let ghost post = self@;
                assert(names_view(self.v@[i as int]@) =~= names_view(before[i as int]@).push(r));
                assert forall|g: int| 0 <= g < pre.len() && g != i implies post[g] == pre[g] by {
                    assert(self.v@[g] == before[g]);
                }
                assert(post =~= pre.update(i as int, pre[i as int].push(r)));
                proof {
                    assert forall|g: int, a: Seq<char>| spec_in_group(post, g, a) <==> (spec_in_group(
                        pre,
                        g,
                        a,
                    ) || (g == i && a == r)) by {
                        if 0 <= g < pre.len() && g != i {
                            assert(post[g] == pre[g]);
                        }
                        if g == i {
                            lemma_push_contains(pre[i as int], r, a);
                        }
                    }
                    lemma_joined_after_grow(pre, post, i as int, l, r);
                    lemma_grown_shaped(pre, i as int, r);
                }
            },
            (None, Some(i)) => {
                let ghost before = self.v@;
                self.v[i].push(String::from_str(left));
                let ghost post = self@;
                assert(names_view(self.v@[i as int]@) =~= names_view(before[i as int]@).push(l));
                assert forall|g: int| 0 <= g < pre.len() && g != i implies post[g] == pre[g] by {
                    assert(self.v@[g] == before[g]);
                }
                assert(post =~= pre.update(i as int, pre[i as int].push(l)));
                proof {
                    assert forall|g: int, a: Seq<char>| spec_in_group(post, g, a) <==> (spec_in_group(
                        pre,
                        g,
                        a,
                    ) || (g == i && a == l)) by {
                        if 0 <= g < pre.len() && g != i {
                            assert(post[g] == pre[g]);
                        }
                        if g == i {
                            lemma_push_contains(pre[i as int], l, a);
                        }
                    }
                    lemma_joined_after_grow(pre, post, i as int, r, l);
                    lemma_grown_shaped(pre, i as int, l);
                }
            },
            (Some(i), Some(j)) => {
                if i != j {
                    let (lo, hi) = if i < j {
                        (i, j)
                    } else {
                        (j, i)
                    };
                    let mut merge = self.v.swap_remove(hi);
                    let ghost moved = names_view(merge@);
                    let ghost kept = self@;
                    assert(moved == pre[hi as int]);
                    assert(kept =~= pre.update(hi as int, pre.last()).drop_last());
                    let ghost before = self.v[lo as int]@;
                    self.v[lo].append(&mut merge);
                    let ghost post = self@;
                    assert(names_view(self.v[lo as int]@) =~= names_view(before) + moved);
                    assert(post =~= kept.update(lo as int, pre[lo as int] + pre[hi as int]));
                    proof {
                        let last = pre.len() - 1;
                        assert forall|g: int, a: Seq<char>| spec_in_group(post, g, a) <==> (if g
                            == lo {
                            spec_in_group(pre, lo as int, a) || spec_in_group(pre, hi as int, a)
                        } else if g == hi {
                            hi < last && spec_in_group(pre, last, a)
                        } else {
                            g < last && spec_in_group(pre, g, a)
                        }) by {
                            if g == lo {
                                lemma_concat_contains(pre[lo as int], pre[hi as int], a);
                            } else if 0 <= g < last {
                                assert(post[g] == kept[g]);
                            }
                        }
                        lemma_joined_after_merge(pre, post, lo as int, hi as int, l, r);
                        lemma_merged_shaped(pre, lo as int, hi as int);
                    }
                } else {
                    proof {
                        assert forall|a: Seq<char>, b: Seq<char>| spec_joined(pre, a, b)
                            <==> spec_joined_with(pre, l, r, a, b) by {
                            lemma_joined_in_group(pre, i as int, l, a);
                            lemma_joined_in_group(pre, i as int, r, a);
                            lemma_joined_in_group(pre, i as int, l, b);
                            lemma_joined_in_group(pre, i as int, r, b);
                        }
                    }
                }
            },
        }
    }

    /// Declares each name of `c.inputs` equivalent to the name of
    /// `c.outputs` in the same place. Fails, and changes nothing, when the
    /// two differ in length.
    pub fn add(&mut self, c: &CompInfo) -> (r: Result<(), Unbalanced>)
        requires
            old(self).wf(),
        ensures
            final(self).wf(),
            r is Err <==> c@.inputs.len() != c@.outputs.len(),
            r is Err ==> final(self)@ == old(self)@ && r->Err_0 == (Unbalanced {
                left: c.inputs@.len() as usize,
                right: c.outputs@.len() as usize,
            }),
            r is Ok ==> final(self)@ == spec_add_pairs(
                old(self)@,
                c@.inputs,
                c@.outputs,
                c@.inputs.len(),
            ),
            r is Ok ==> forall|a: Seq<char>, b: Seq<char>|
                spec_joined(final(self)@, a, b) <==> spec_joined_by(
                    old(self)@,
                    c@.inputs,
                    c@.outputs,
                    c@.inputs.len(),
                    a,
                    b,
                ),
            r is Ok ==> forall|a: Seq<char>|
                spec_mentioned(final(self)@, a) <==> spec_mentioned_by(
                    old(self)@,
                    c@.inputs,
                    c@.outputs,
                    c@.inputs.len(),
                    a,
                ),
    {
        if c.inputs.len() != c.outputs.len() {
            return Err(Unbalanced { left: c.inputs.len(), right: c.outputs.len() });
        }
        let n = c.inputs.len();
        let mut k: usize = 0;
        while k < n
            invariant
                k <= n,
                n == c.inputs@.len(),
                n == c.outputs@.len(),
                self.wf(),
                self@ == spec_add_pairs(old(self)@, c@.inputs, c@.outputs, k as nat),
                forall|a: Seq<char>, b: Seq<char>|
                    spec_joined(self@, a, b) <==> spec_joined_by(
                        old(self)@,
                        c@.inputs,
                        c@.outputs,
                        k as nat,
                        a,
                        b,
                    ),
                forall|a: Seq<char>|
                    spec_mentioned(self@, a) <==> spec_mentioned_by(
                        old(self)@,
                        c@.inputs,
                        c@.outputs,
                        k as nat,
                        a,
                    ),
            decreases n - k,
        {
            assert(c@.inputs[k as int] == c.inputs@[k as int]@);
            assert(c@.outputs[k as int] == c.outputs@[k as int]@);
            self.add_pair(c.inputs[k].as_str(), c.outputs[k].as_str());
            k += 1;
        }
        Ok(())
    }
}

/// Whether `a` and `b` name the same signal once the first `n` names of
/// `lefts` are assigned to the names of `rights` in the same places, one
/// after the other, given which names did so before.
pub open spec fn spec_joined_by(
    groups: Seq<Seq<Seq<char>>>,
    lefts: Seq<Seq<char>>,
    rights: Seq<Seq<char>>,
    n: nat,
    a: Seq<char>,
    b: Seq<char>,
) -> bool
    decreases n,
{
    if n == 0 {
        spec_joined(groups, a, b)
    } else {
        let m = (n - 1) as nat;
        let l = lefts[n - 1];
        let r = rights[n - 1];
        if spec_idle_pair(l, r) {
            spec_joined_by(groups, lefts, rights, m, a, b)
        } else {
            ||| spec_joined_by(groups, lefts, rights, m, a, b)
            ||| spec_joined_by(groups, lefts, rights, m, a, l) && spec_joined_by(
                groups,
                lefts,
                rights,
                m,
                b,
                r,
            )
            ||| spec_joined_by(groups, lefts, rights, m, a, r) && spec_joined_by(
                groups,
                lefts,
                rights,
                m,
                b,
                l,
            )
        }
    }
}

/// Whether `a` is in a group once the first `n` names of `lefts` are
/// assigned to the names of `rights` in the same places.
pub open spec fn spec_mentioned_by(
    groups: Seq<Seq<Seq<char>>>,
    lefts: Seq<Seq<char>>,
    rights: Seq<Seq<char>>,
    n: nat,
    a: Seq<char>,
) -> bool
    decreases n,
{
    if n == 0 {
        spec_mentioned(groups, a)
    } else {
        let l = lefts[n - 1];
        let r = rights[n - 1];
        spec_mentioned_by(groups, lefts, rights, (n - 1) as nat, a) || (!spec_idle_pair(l, r) && (a
            == l || a == r))
    }
}

/// A list without a name twice that takes a name that it does not hold has
/// no name twice.
proof fn lemma_push_distinct(s: Seq<Seq<char>>, x: Seq<char>)
    requires
        spec_distinct(s),
        !s.contains(x),
    ensures
        spec_distinct(s.push(x)),
{
    let t = s.push(x);
    assert forall|i: int, j: int| 0 <= i < j < t.len() implies t[i] != t[j] by {
        if j < s.len() {
            assert(s[i] != s[j]);
        } else {
            assert(t[i] == s[i]);
            if s[i] == x {
                assert(s.contains(x));
            }
        }
    }
}

/// Two lists without a name twice, and without a name in both, make one
/// list without a name twice.
proof fn lemma_concat_distinct(s: Seq<Seq<char>>, t: Seq<Seq<char>>)
    requires
        spec_distinct(s),
        spec_distinct(t),
        forall|x: Seq<char>| !(s.contains(x) && t.contains(x)),
    ensures
        spec_distinct(s + t),
{
    let u = s + t;
    assert forall|i: int, j: int| 0 <= i < j < u.len() implies u[i] != u[j] by {
        if j < s.len() {
            assert(s[i] != s[j]);
        } else if i >= s.len() {
            assert(t[i - s.len()] != t[j - s.len()]);
        } else {
            assert(u[i] == s[i]);
            assert(u[j] == t[j - s.len()]);
            if s[i] == t[j - s.len()] {
                assert(s.contains(s[i]));
                assert(t.contains(s[i]));
            }
        }
    }
}

/// Groups of which one takes a name that no group holds keep their shape.
proof fn lemma_grown_shaped(pre: Seq<Seq<Seq<char>>>, i: int, fresh: Seq<char>)
    requires
        spec_shaped(pre),
        0 <= i < pre.len(),
        !spec_mentioned(pre, fresh),
    ensures
        spec_shaped(pre.update(i, pre[i].push(fresh))),
{
    let post = pre.update(i, pre[i].push(fresh));
    assert(!pre[i].contains(fresh)) by {
        if pre[i].contains(fresh) {
            assert(spec_in_group(pre, i, fresh));
        }
    }
    lemma_push_distinct(pre[i], fresh);
    assert forall|g: int| 0 <= g < post.len() implies (#[trigger] post[g]).len() >= 2
        && spec_distinct(post[g]) by {
        if g != i {
            assert(post[g] == pre[g]);
        }
    }
}

/// Groups of which two are made one keep their shape.
proof fn lemma_merged_shaped(pre: Seq<Seq<Seq<char>>>, lo: int, hi: int)
    requires
        spec_shaped(pre),
        spec_disjoint(pre),
        0 <= lo < hi < pre.len(),
    ensures
        spec_shaped(pre.update(hi, pre.last()).drop_last().update(lo, pre[lo] + pre[hi])),
{
    let kept = pre.update(hi, pre.last()).drop_last();
    let post = kept.update(lo, pre[lo] + pre[hi]);
    assert forall|x: Seq<char>| !(pre[lo].contains(x) && pre[hi].contains(x)) by {
        if pre[lo].contains(x) && pre[hi].contains(x) {
            assert(spec_in_group(pre, lo, x) && spec_in_group(pre, hi, x));
        }
    }
    lemma_concat_distinct(pre[lo], pre[hi]);
    assert forall|g: int| 0 <= g < post.len() implies (#[trigger] post[g]).len() >= 2
        && spec_distinct(post[g]) by {
        if g == lo {
        } else if g == hi {
            assert(post[g] == pre[pre.len() - 1]);
        } else {
            assert(post[g] == pre[g]);
        }
    }
}

proof fn lemma_push_contains(s: Seq<Seq<char>>, x: Seq<char>, a: Seq<char>)
    ensures
        s.push(x).contains(a) <==> s.contains(a) || a == x,
{
    let t = s.push(x);
    if s.contains(a) {
        let j = choose|j: int| 0 <= j < s.len() && s[j] == a;
        assert(t[j] == a);
    }
    if a == x {
        assert(t[s.len() as int] == a);
    }
    if t.contains(a) {
        let j = choose|j: int| 0 <= j < t.len() && t[j] == a;
        if j < s.len() {
            assert(s[j] == a);
        }
    }
}

proof fn lemma_concat_contains(s: Seq<Seq<char>>, t: Seq<Seq<char>>, a: Seq<char>)
    ensures
        (s + t).contains(a) <==> s.contains(a) || t.contains(a),
{
    let u = s + t;
    if s.contains(a) {
        let j = choose|j: int| 0 <= j < s.len() && s[j] == a;
        assert(u[j] == a);
    }
    if t.contains(a) {
        let j = choose|j: int| 0 <= j < t.len() && t[j] == a;
        assert(u[s.len() + j] == a);
    }
    if u.contains(a) {
        let j = choose|j: int| 0 <= j < u.len() && u[j] == a;
        if j < s.len() {
            assert(s[j] == a);
        } else {
            assert(t[j - s.len()] == a);
        }
    }
}

/// A name joined with a member of a group is that member or in the group.
proof fn lemma_joined_in_group(groups: Seq<Seq<Seq<char>>>, g: int, member: Seq<char>, a: Seq<char>)
    requires
        spec_disjoint(groups),
        spec_in_group(groups, g, member),
    ensures
        spec_joined(groups, a, member) <==> (a == member || spec_in_group(groups, g, a)),
{
    if spec_in_group(groups, g, a) {
        assert(spec_in_group(groups, g, a) && spec_in_group(groups, g, member));
    }
}

/// A name joined with a name that no group holds is that name.
proof fn lemma_joined_alone(groups: Seq<Seq<Seq<char>>>, lone: Seq<char>, a: Seq<char>)
    requires
        !spec_mentioned(groups, lone),
    ensures
        spec_joined(groups, a, lone) <==> a == lone,
{
}

proof fn lemma_joined_after_new_group(
    pre: Seq<Seq<Seq<char>>>,
    post: Seq<Seq<Seq<char>>>,
    l: Seq<char>,
    r: Seq<char>,
)
    requires
        spec_disjoint(pre),
        forall|g: int, name: Seq<char>| spec_in_group(pre, g, name) ==> !spec_is_wildcard(name),
        !spec_idle_pair(l, r),
        !spec_mentioned(pre, l),
        !spec_mentioned(pre, r),
        post.len() == pre.len() + 1,
        forall|g: int, a: Seq<char>|
            spec_in_group(post, g, a) <==> (spec_in_group(pre, g, a) || (g == pre.len() && (a == l
                || a == r))),
    ensures
        spec_disjoint(post),
        forall|g: int, name: Seq<char>| spec_in_group(post, g, name) ==> !spec_is_wildcard(name),
        forall|a: Seq<char>, b: Seq<char>|
            spec_joined(post, a, b) <==> spec_joined_with(pre, l, r, a, b),
        forall|a: Seq<char>| spec_mentioned(post, a) <==> spec_mentioned(pre, a) || a == l || a == r,
{
    let n = pre.len() as int;
    assert forall|a: Seq<char>, b: Seq<char>| spec_joined(post, a, b) <==> spec_joined_with(
        pre,
        l,
        r,
        a,
        b,
    ) by {
        lemma_joined_alone(pre, l, a);
        lemma_joined_alone(pre, r, a);
        lemma_joined_alone(pre, l, b);
        lemma_joined_alone(pre, r, b);
        if spec_joined_with(pre, l, r, a, b) && a != b {
            if spec_joined(pre, a, b) {
                let g = choose|g: int| spec_in_group(pre, g, a) && spec_in_group(pre, g, b);
                assert(spec_in_group(post, g, a) && spec_in_group(post, g, b));
            } else {
                assert(spec_in_group(post, n, a) && spec_in_group(post, n, b));
            }
        }
        if spec_joined(post, a, b) && a != b {
            let g = choose|g: int| spec_in_group(post, g, a) && spec_in_group(post, g, b);
            if g != n {
                assert(spec_in_group(pre, g, a) && spec_in_group(pre, g, b));
            }
        }
    }
    assert forall|a: Seq<char>| spec_mentioned(post, a) <==> spec_mentioned(pre, a) || a == l || a
        == r by {
        if spec_mentioned(pre, a) {
            let g = choose|g: int| spec_in_group(pre, g, a);
            assert(spec_in_group(post, g, a));
        }
        if a == l || a == r {
            assert(spec_in_group(post, n, a));
        }
        if spec_mentioned(post, a) {
            let g = choose|g: int| spec_in_group(post, g, a);
            if g != n {
                assert(spec_in_group(pre, g, a));
            }
        }
    }
    assert forall|g1: int, g2: int, name: Seq<char>|
        spec_in_group(post, g1, name) && spec_in_group(post, g2, name) implies g1 == g2 by {
        if g1 != n {
            assert(spec_in_group(pre, g1, name));
        }
        if g2 != n {
            assert(spec_in_group(pre, g2, name));
        }
    }
}

proof fn lemma_joined_after_grow(
    pre: Seq<Seq<Seq<char>>>,
    post: Seq<Seq<Seq<char>>>,
    i: int,
    member: Seq<char>,
    fresh: Seq<char>,
)
    requires
        spec_disjoint(pre),
        forall|g: int, name: Seq<char>| spec_in_group(pre, g, name) ==> !spec_is_wildcard(name),
        !spec_idle_pair(member, fresh),
        spec_in_group(pre, i, member),
        !spec_mentioned(pre, fresh),
        post.len() == pre.len(),
        forall|g: int, a: Seq<char>|
            spec_in_group(post, g, a) <==> (spec_in_group(pre, g, a) || (g == i && a == fresh)),
    ensures
        spec_disjoint(post),
        forall|g: int, name: Seq<char>| spec_in_group(post, g, name) ==> !spec_is_wildcard(name),
        forall|a: Seq<char>, b: Seq<char>|
            spec_joined(post, a, b) <==> spec_joined_with(pre, member, fresh, a, b),
        forall|a: Seq<char>, b: Seq<char>|
            spec_joined(post, a, b) <==> spec_joined_with(pre, fresh, member, a, b),
        forall|a: Seq<char>|
            spec_mentioned(post, a) <==> spec_mentioned(pre, a) || a == member || a == fresh,
{
    assert forall|a: Seq<char>, b: Seq<char>| spec_joined(post, a, b) <==> spec_joined_with(
        pre,
        member,
        fresh,
        a,
        b,
    ) by {
        lemma_joined_alone(pre, fresh, a);
        lemma_joined_alone(pre, fresh, b);
        lemma_joined_in_group(pre, i, member, a);
        lemma_joined_in_group(pre, i, member, b);
        if spec_joined_with(pre, member, fresh, a, b) && a != b {
            if spec_joined(pre, a, b) {
                let g = choose|g: int| spec_in_group(pre, g, a) && spec_in_group(pre, g, b);
                assert(spec_in_group(post, g, a) && spec_in_group(post, g, b));
            } else {
                assert(spec_in_group(post, i, a) && spec_in_group(post, i, b));
            }
        }
        if spec_joined(post, a, b) && a != b {
            let g = choose|g: int| spec_in_group(post, g, a) && spec_in_group(post, g, b);
            if spec_in_group(pre, g, a) && spec_in_group(pre, g, b) {
            } else {
                assert(g == i);
            }
        }
    }
    assert forall|a: Seq<char>, b: Seq<char>| spec_joined(post, a, b) <==> spec_joined_with(
        pre,
        fresh,
        member,
        a,
        b,
    ) by {
        assert(spec_joined(post, a, b) <==> spec_joined_with(pre, member, fresh, a, b));
        assert(spec_joined(post, b, a) <==> spec_joined_with(pre, member, fresh, b, a));
        assert(spec_joined(post, a, b) <==> spec_joined(post, b, a)) by {
            if spec_joined(post, a, b) && a != b {
                let g = choose|g: int| spec_in_group(post, g, a) && spec_in_group(post, g, b);
                assert(spec_in_group(post, g, b) && spec_in_group(post, g, a));
            }
            if spec_joined(post, b, a) && a != b {
                let g = choose|g: int| spec_in_group(post, g, b) && spec_in_group(post, g, a);
                assert(spec_in_group(post, g, a) && spec_in_group(post, g, b));
            }
        }
        lemma_joined_symmetric(pre, a, b);
        lemma_joined_symmetric(pre, a, member);
        lemma_joined_symmetric(pre, a, fresh);
        lemma_joined_symmetric(pre, b, member);
        lemma_joined_symmetric(pre, b, fresh);
    }
    assert forall|a: Seq<char>| spec_mentioned(post, a) <==> spec_mentioned(pre, a) || a == member
        || a == fresh by {
        if spec_mentioned(pre, a) {
            let g = choose|g: int| spec_in_group(pre, g, a);
            assert(spec_in_group(post, g, a));
        }
        if a == fresh {
            assert(spec_in_group(post, i, a));
        }
        if spec_mentioned(post, a) {
            let g = choose|g: int| spec_in_group(post, g, a);
            if !spec_in_group(pre, g, a) {
                assert(a == fresh);
            }
        }
    }
    assert forall|g1: int, g2: int, name: Seq<char>|
        spec_in_group(post, g1, name) && spec_in_group(post, g2, name) implies g1 == g2 by {
        if name == fresh {
            assert(!spec_in_group(pre, g1, name));
            assert(!spec_in_group(pre, g2, name));
        }
    }
}

/// Being joined does not depend on the order of the two names.
pub proof fn lemma_joined_symmetric(groups: Seq<Seq<Seq<char>>>, a: Seq<char>, b: Seq<char>)
    ensures
        spec_joined(groups, a, b) <==> spec_joined(groups, b, a),
{
    if spec_joined(groups, a, b) && a != b {
        let g = choose|g: int| spec_in_group(groups, g, a) && spec_in_group(groups, g, b);
        assert(spec_in_group(groups, g, b) && spec_in_group(groups, g, a));
    }
    if spec_joined(groups, b, a) && a != b {
        let g = choose|g: int| spec_in_group(groups, g, b) && spec_in_group(groups, g, a);
        assert(spec_in_group(groups, g, a) && spec_in_group(groups, g, b));
    }
}

proof fn lemma_joined_after_merge(
    pre: Seq<Seq<Seq<char>>>,
    post: Seq<Seq<Seq<char>>>,
    lo: int,
    hi: int,
    l: Seq<char>,
    r: Seq<char>,
)
    requires
        spec_disjoint(pre),
        forall|g: int, name: Seq<char>| spec_in_group(pre, g, name) ==> !spec_is_wildcard(name),
        !spec_idle_pair(l, r),
        0 <= lo < hi < pre.len(),
        (spec_in_group(pre, lo, l) && spec_in_group(pre, hi, r)) || (spec_in_group(pre, lo, r)
            && spec_in_group(pre, hi, l)),
        post.len() == pre.len() - 1,
        forall|g: int, a: Seq<char>|
            spec_in_group(post, g, a) <==> (if g == lo {
                spec_in_group(pre, lo, a) || spec_in_group(pre, hi, a)
            } else if g == hi {
                hi < pre.len() - 1 && spec_in_group(pre, pre.len() - 1, a)
            } else {
                g < pre.len() - 1 && spec_in_group(pre, g, a)
            }),
    ensures
        spec_disjoint(post),
        forall|g: int, name: Seq<char>| spec_in_group(post, g, name) ==> !spec_is_wildcard(name),
        forall|a: Seq<char>, b: Seq<char>|
            spec_joined(post, a, b) <==> spec_joined_with(pre, l, r, a, b),
        forall|a: Seq<char>| spec_mentioned(post, a) <==> spec_mentioned(pre, a),
{
    let last = pre.len() - 1;
    // where a group of `pre` has gone in `post`
    let to = |g: int| if g == hi { lo } else if g == last { hi } else { g };
    assert forall|g: int, a: Seq<char>| spec_in_group(pre, g, a) implies spec_in_group(
        post,
        to(g),
        a,
    ) by {}
    assert forall|a: Seq<char>, b: Seq<char>| spec_joined(post, a, b) <==> spec_joined_with(
        pre,
        l,
        r,
        a,
        b,
    ) by {
        if spec_in_group(pre, lo, l) {
            lemma_joined_in_group(pre, lo, l, a);
            lemma_joined_in_group(pre, lo, l, b);
            lemma_joined_in_group(pre, hi, r, a);
            lemma_joined_in_group(pre, hi, r, b);
        } else {
            lemma_joined_in_group(pre, hi, l, a);
            lemma_joined_in_group(pre, hi, l, b);
            lemma_joined_in_group(pre, lo, r, a);
            lemma_joined_in_group(pre, lo, r, b);
        }
        if spec_joined_with(pre, l, r, a, b) && a != b {
            if spec_joined(pre, a, b) {
                let g = choose|g: int| spec_in_group(pre, g, a) && spec_in_group(pre, g, b);
                assert(spec_in_group(post, to(g), a) && spec_in_group(post, to(g), b));
            } else {
                assert(spec_in_group(post, lo, a) && spec_in_group(post, lo, b));
            }
        }
        if spec_joined(post, a, b) && a != b {
            let g = choose|g: int| spec_in_group(post, g, a) && spec_in_group(post, g, b);
            if g == lo {
                if spec_in_group(pre, lo, a) && spec_in_group(pre, lo, b) {
                } else if spec_in_group(pre, hi, a) && spec_in_group(pre, hi, b) {
                } else {
                }
            } else if g == hi {
                assert(spec_in_group(pre, last, a) && spec_in_group(pre, last, b));
            } else {
                assert(spec_in_group(pre, g, a) && spec_in_group(pre, g, b));
            }
        }
    }
    assert forall|a: Seq<char>| spec_mentioned(post, a) <==> spec_mentioned(pre, a) by {
        if spec_mentioned(pre, a) {
            let g = choose|g: int| spec_in_group(pre, g, a);
            assert(spec_in_group(post, to(g), a));
        }
        if spec_mentioned(post, a) {
            let g = choose|g: int| spec_in_group(post, g, a);
            if g == lo {
            } else if g == hi {
                assert(spec_in_group(pre, last, a));
            } else {
                assert(spec_in_group(pre, g, a));
            }
        }
    }
    assert forall|g1: int, g2: int, name: Seq<char>|
        spec_in_group(post, g1, name) && spec_in_group(post, g2, name) implies g1 == g2 by {
        let from = |g: int| if g == lo {
            if spec_in_group(pre, lo, name) { lo } else { hi }
        } else if g == hi {
            last
        } else {
            g
        };
        assert(spec_in_group(pre, from(g1), name));
        assert(spec_in_group(pre, from(g2), name));
    }
    assert forall|g: int, name: Seq<char>| spec_in_group(post, g, name) implies !spec_is_wildcard(
        name,
    ) by {
        if g == lo {
        } else if g == hi {
            assert(spec_in_group(pre, last, name));
        } else {
            assert(spec_in_group(pre, g, name));
        }
    }
}

} // verus!
