//! The names of signals matter only in so far as they are the same or
//! different: a body with other names connects the same pins.

use crate::assignments::{spec_idle_pair, spec_joined_by};
use crate::component::ComponentIndex;
use crate::model::InfoModel;
use crate::names::spec_is_wildcard;
use crate::parser::BodyModel;
use vstd::prelude::*;

verus! {

/// The names `names`, each renamed by `rho`.
pub open spec fn spec_renamed(
    names: Seq<Seq<char>>,
    rho: spec_fn(Seq<char>) -> Seq<char>,
) -> Seq<Seq<char>> {
    Seq::new(names.len(), |i: int| rho(names[i]))
}

/// The statement with its signals renamed by `rho`; its own name stays.
pub open spec fn spec_renamed_info(c: InfoModel, rho: spec_fn(Seq<char>) -> Seq<char>) -> InfoModel {
    InfoModel {
        name: c.name,
        inputs: spec_renamed(c.inputs, rho),
        outputs: spec_renamed(c.outputs, rho),
    }
}

/// The body with all its signals renamed by `rho`.
pub open spec fn spec_renamed_body(b: BodyModel, rho: spec_fn(Seq<char>) -> Seq<char>) -> BodyModel {
    BodyModel {
        sig: spec_renamed_info(b.sig, rho),
        insts: Seq::new(b.insts.len(), |l: int| spec_renamed_info(b.insts[l], rho)),
        lefts: spec_renamed(b.lefts, rho),
        rights: spec_renamed(b.rights, rho),
    }
}

/// Whether `rho` gives different names to different names, and the wildcard
/// to the wildcard only.
pub open spec fn spec_faithful(rho: spec_fn(Seq<char>) -> Seq<char>) -> bool {
    &&& forall|x: Seq<char>, y: Seq<char>| #[trigger] rho(x) == #[trigger] rho(y) ==> x == y
    &&& forall|x: Seq<char>| spec_is_wildcard(#[trigger] rho(x)) == spec_is_wildcard(x)
}

/// Under a faithful renaming the assignments make the renamed names
/// equivalent that they made equivalent before.
pub proof fn lemma_renamed_joined(
    lefts: Seq<Seq<char>>,
    rights: Seq<Seq<char>>,
    rho: spec_fn(Seq<char>) -> Seq<char>,
    n: nat,
    a: Seq<char>,
    b: Seq<char>,
)
    requires
        spec_faithful(rho),
        n <= lefts.len(),
        n <= rights.len(),
    ensures
        spec_joined_by(
            Seq::empty(),
            spec_renamed(lefts, rho),
            spec_renamed(rights, rho),
            n,
            rho(a),
            rho(b),
        ) == spec_joined_by(Seq::empty(), lefts, rights, n, a, b),
    decreases n,
{
    let none = Seq::<Seq<Seq<char>>>::empty();
    if n == 0 {
        let ra = rho(a);
        assert(forall|g: int| !(#[trigger] crate::assignments::spec_in_group(none, g, a)));
        assert(forall|g: int| !(#[trigger] crate::assignments::spec_in_group(none, g, ra)));
    } else {
        let m = (n - 1) as nat;
        let l = lefts[n - 1];
        let r = rights[n - 1];
        assert(spec_renamed(lefts, rho)[n - 1] == rho(l));
        assert(spec_renamed(rights, rho)[n - 1] == rho(r));
        assert(spec_idle_pair(rho(l), rho(r)) == spec_idle_pair(l, r));
        lemma_renamed_joined(lefts, rights, rho, m, a, b);
        lemma_renamed_joined(lefts, rights, rho, m, a, l);
        lemma_renamed_joined(lefts, rights, rho, m, b, r);
        lemma_renamed_joined(lefts, rights, rho, m, a, r);
        lemma_renamed_joined(lefts, rights, rho, m, b, l);
    }
}

/// The renaming law: a body whose signals are renamed faithfully has the
/// same pins, the same drivers, the same loads for each driver, and the same
/// conflicts between drivers. A port declared as an array of four elements
/// is wired as four ports of names of their own are.
pub proof fn lemma_renaming(b: BodyModel, rho: spec_fn(Seq<char>) -> Seq<char>)
    requires
        spec_faithful(rho),
        b.lefts.len() == b.rights.len(),
    ensures
        forall|e: ComponentIndex| spec_renamed_body(b, rho).is_pin(e) == b.is_pin(e),
        forall|d: ComponentIndex| spec_renamed_body(b, rho).drives(d) == b.drives(d),
        forall|d: ComponentIndex, e: ComponentIndex|
            spec_renamed_body(b, rho).feeds(d, e) == b.feeds(d, e),
        forall|d1: ComponentIndex, d2: ComponentIndex|
            spec_renamed_body(b, rho).double_driven(d1, d2) == b.double_driven(d1, d2),
{
    let r = spec_renamed_body(b, rho);
    assert forall|e: ComponentIndex| r.is_pin(e) == b.is_pin(e) && (b.is_pin(e) ==> r.pin_name(e)
        == rho(b.pin_name(e))) by {
        if e.c_id != 0 && e.c_id <= b.insts.len() {
            assert(r.insts[e.c_id - 1] == spec_renamed_info(b.insts[e.c_id - 1], rho));
        }
    }
    assert forall|x: Seq<char>, y: Seq<char>| r.same_signal(rho(x), rho(y)) == b.same_signal(
        x,
        y,
    ) by {
        lemma_renamed_joined(b.lefts, b.rights, rho, b.lefts.len(), x, y);
    }
    assert forall|d: ComponentIndex| r.drives(d) == b.drives(d) by {}
    assert forall|d: ComponentIndex, e: ComponentIndex| r.feeds(d, e) == b.feeds(d, e) by {
        if b.is_pin(d) && b.is_pin(e) {
            assert(r.same_signal(rho(b.pin_name(d)), rho(b.pin_name(e))) == b.same_signal(
                b.pin_name(d),
                b.pin_name(e),
            ));
        }
    }
    assert forall|d1: ComponentIndex, d2: ComponentIndex| r.double_driven(d1, d2)
        == b.double_driven(d1, d2) by {
        if b.is_pin(d1) && b.is_pin(d2) {
            assert(r.same_signal(rho(b.pin_name(d1)), rho(b.pin_name(d2))) == b.same_signal(
                b.pin_name(d1),
                b.pin_name(d2),
            ));
        }
    }
}

} // verus!
