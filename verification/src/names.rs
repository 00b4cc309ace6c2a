//! Signal and port names: their model, the array suffix, the wildcard and
//! numbered default names.

use vstd::prelude::*;
use vstd::string::*;

verus! {

/// The names of `v` as sequences of characters.
pub open spec fn names_view(v: Seq<String>) -> Seq<Seq<char>> {
    Seq::new(v.len(), |i: int| v[i]@)
}

/// The character that separates an array's name from an element's index.
pub open spec fn spec_separator() -> char {
    '$'
}

/// How many separators `s` holds.
pub open spec fn spec_separators(s: Seq<char>) -> nat
    decreases s.len(),
{
    if s.len() == 0 {
        0
    } else {
        spec_separators(s.drop_last()) + (if s.last() == spec_separator() { 1nat } else { 0nat })
    }
}

/// The length of the part of `s` before its first separator: all of `s`
/// where it holds none.
pub open spec fn spec_base_len(s: Seq<char>) -> int
    decreases s.len(),
{
    if s.len() == 0 {
        0
    } else {
        let b = spec_base_len(s.drop_last());
        if b == s.len() - 1 && s.last() != spec_separator() {
            s.len() as int
        } else {
            b
        }
    }
}

/// The part of `s` before its first separator.
pub open spec fn spec_base(s: Seq<char>) -> Seq<char> {
    s.take(spec_base_len(s))
}

/// Whether `s` names the signal that stands for "not connected": the
/// underscore alone, or an element of the array of that name.
pub open spec fn spec_is_wildcard(s: Seq<char>) -> bool {
    s.len() >= 1 && s[0] == '_' && (s.len() == 1 || s[1] == spec_separator())
}

/// The base length is a position in the name: no separator stands before it,
/// and one stands at it unless it is the end.
pub proof fn lemma_base_len(s: Seq<char>)
    ensures
        0 <= spec_base_len(s) <= s.len(),
        forall|j: int| 0 <= j < spec_base_len(s) ==> s[j] != spec_separator(),
        spec_base_len(s) < s.len() ==> s[spec_base_len(s)] == spec_separator(),
        spec_base_len(s) == s.len() <==> spec_separators(s) == 0,
    decreases s.len(),
{
    if s.len() > 0 {
        let t = s.drop_last();
        lemma_base_len(t);
        assert forall|j: int| 0 <= j < spec_base_len(s) implies s[j] != spec_separator() by {
            if j < t.len() {
                assert(s[j] == t[j]);
            }
        }
        if spec_base_len(s) < s.len() && spec_base_len(s) < t.len() {
            assert(s[spec_base_len(s)] == t[spec_base_len(t)]);
        }
    }
}

/// A name is the wildcard exactly when its base is the underscore.
pub proof fn lemma_wildcard_is_base(s: Seq<char>)
    ensures
        spec_is_wildcard(s) <==> spec_base(s) =~= seq!['_'],
{
    lemma_base_len(s);
    if spec_base(s) =~= seq!['_'] {
        assert(spec_base(s).len() == 1);
        assert(spec_base(s)[0] == '_');
    }
    if spec_is_wildcard(s) {
        if s.len() == 1 {
            assert(spec_base_len(s) == 1) by {
                if spec_base_len(s) < 1 {
                    assert(s[0] == spec_separator());
                }
            }
        } else {
            assert(spec_base_len(s) == 1) by {
                if spec_base_len(s) < 1 {
                    assert(s[0] == spec_separator());
                }
                if spec_base_len(s) > 1 {
                    assert(s[1] != spec_separator());
                }
            }
        }
    }
}

/// Whether `name` is the wildcard.
pub fn is_wildcard(name: &str) -> (r: bool)
    ensures
        r == spec_is_wildcard(name@),
{
    let n = name.unicode_len();
    if n == 0 {
        return false;
    }
    if name.get_char(0) != '_' {
        return false;
    }
    if n == 1 {
        return true;
    }
    name.get_char(1) == '$'
}

/// How many separators `name` holds.
pub fn count_separators(name: &str) -> (r: usize)
    ensures
        r == spec_separators(name@),
{
    let n = name.unicode_len();
    let mut i: usize = 0;
    let mut count: usize = 0;
    while i < n
        invariant
            i <= n,
            n == name@.len(),
            count <= i,
            count == spec_separators(name@.take(i as int)),
        decreases n - i,
    {
        let c = name.get_char(i);
        assert(name@.take(i + 1).drop_last() =~= name@.take(i as int));
        if c == '$' {
            count += 1;
        }
        i += 1;
    }
    assert(name@.take(n as int) =~= name@);
    count
}

/// The length of the part of `name` before its first separator.
pub fn base_len(name: &str) -> (r: usize)
    ensures
        r == spec_base_len(name@),
{
    let n = name.unicode_len();
    let mut i: usize = 0;
    let mut b: usize = 0;
    while i < n
        invariant
            i <= n,
            n == name@.len(),
            b <= i,
            b == spec_base_len(name@.take(i as int)),
        decreases n - i,
    {
        let c = name.get_char(i);
        assert(name@.take(i + 1).drop_last() =~= name@.take(i as int));
        if b == i && c != '$' {
            b = i + 1;
        }
        i += 1;
    }
    assert(name@.take(n as int) =~= name@);
    b
}

/// The part of `name` before its first separator.
pub fn base_of(name: &str) -> (r: String)
    ensures
        r@ == spec_base(name@),
{
    let b = base_len(name);
    proof {
        lemma_base_len(name@);
    }
    let part = name.substring_char(0, b);
    assert(name@.subrange(0, b as int) =~= name@.take(b as int));
    String::from_str(part)
}

/// Whether the two names are the same.
pub fn same_name(a: &str, b: &str) -> (r: bool)
    ensures
        r == (a@ == b@),
{
    let n = a.unicode_len();
    if n != b.unicode_len() {
        return false;
    }
    let mut i: usize = 0;
    while i < n
        invariant
            i <= n,
            n == a@.len(),
            n == b@.len(),
            forall|j: int| 0 <= j < i ==> a@[j] == b@[j],
        decreases n - i,
    {
        if a.get_char(i) != b.get_char(i) {
            return false;
        }
        i += 1;
    }
    assert(a@ =~= b@);
    true
}

/// The decimal digit `d`.
pub open spec fn spec_digit(d: int) -> char
    recommends
        0 <= d < 10,
{
    seq!['0', '1', '2', '3', '4', '5', '6', '7', '8', '9'][d]
}

/// `n` written in decimal, without leading zeros.
pub open spec fn spec_decimal(n: nat) -> Seq<char>
    decreases n,
{
    if n < 10 {
        seq![spec_digit(n as int)]
    } else {
        spec_decimal(n / 10).push(spec_digit((n % 10) as int))
    }
}

fn digit_str(d: usize) -> (s: &'static str)
    requires
        d < 10,
    ensures
        s@ == seq![spec_digit(d as int)],
{
    proof {
        reveal_strlit("0");
        reveal_strlit("1");
        reveal_strlit("2");
        reveal_strlit("3");
        reveal_strlit("4");
        reveal_strlit("5");
        reveal_strlit("6");
        reveal_strlit("7");
        reveal_strlit("8");
        reveal_strlit("9");
    }
    let s = if d == 0 {
        "0"
    } else if d == 1 {
        "1"
    } else if d == 2 {
        "2"
    } else if d == 3 {
        "3"
    } else if d == 4 {
        "4"
    } else if d == 5 {
        "5"
    } else if d == 6 {
        "6"
    } else if d == 7 {
        "7"
    } else if d == 8 {
        "8"
    } else {
        "9"
    };
    assert(s@ =~= seq![spec_digit(d as int)]);
    s
}

/// `prefix` followed by `n` in decimal.
pub fn numbered(prefix: &str, n: usize) -> (s: String)
    ensures
        s@ == prefix@ + spec_decimal(n as nat),
    decreases n,
{
    if n < 10 {
        let mut s = String::from_str(prefix);
        s.append(digit_str(n));
        s
    } else {
        let mut s = numbered(prefix, n / 10);
        s.append(digit_str(n % 10));
        assert(s@ =~= prefix@ + spec_decimal(n as nat));
        s
    }
}

/// `n` names, `prefix` followed by the numbers from 0.
pub open spec fn spec_numbered_names(prefix: Seq<char>, n: nat) -> Seq<Seq<char>> {
    Seq::new(n, |i: int| prefix + spec_decimal(i as nat))
}

/// The names `prefix0`, `prefix1`, ... up to `n` of them.
pub fn numbered_names(prefix: &str, n: usize) -> (v: Vec<String>)
    ensures
        names_view(v@) == spec_numbered_names(prefix@, n as nat),
{
    let mut v: Vec<String> = Vec::new();
    let mut i: usize = 0;
    while i < n
        invariant
            i <= n,
            v@.len() == i,
            forall|j: int| 0 <= j < i ==> (#[trigger] v@[j])@ == prefix@ + spec_decimal(j as nat),
        decreases n - i,
    {
        v.push(numbered(prefix, i));
        i += 1;
    }
    assert(names_view(v@) =~= spec_numbered_names(prefix@, n as nat));
    v
}

/// A copy of `names`.
pub fn copy_names(names: &Vec<String>) -> (v: Vec<String>)
    ensures
        names_view(v@) == names_view(names@),
{
    let mut v: Vec<String> = Vec::new();
    let mut i: usize = 0;
    while i < names.len()
        invariant
            i <= names.len(),
            v@.len() == i,
            forall|j: int| 0 <= j < i ==> (#[trigger] v@[j])@ == names@[j]@,
        decreases names.len() - i,
    {
        v.push(names[i].clone());
        i += 1;
    }
    assert(names_view(v@) =~= names_view(names@));
    v
}

/// The position of the first of `names` that equals `name`.
pub fn find_name(names: &Vec<String>, name: &str) -> (r: Option<usize>)
    ensures
        r is Some <==> names_view(names@).contains(name@),
        r is Some ==> r->0 < names@.len() && names@[r->0 as int]@ == name@ && forall|j: int|
            0 <= j < r->0 ==> names@[j]@ != name@,
{
    let mut i: usize = 0;
    while i < names.len()
        invariant
            i <= names.len(),
            forall|j: int| 0 <= j < i ==> names@[j]@ != name@,
        decreases names.len() - i,
    {
        if same_name(names[i].as_str(), name) {
            assert(names_view(names@)[i as int] == name@);
            return Some(i);
        }
        i += 1;
    }
    assert(!names_view(names@).contains(name@)) by {
        if names_view(names@).contains(name@) {
            let j = choose|j: int| 0 <= j < names_view(names@).len() && names_view(names@)[j] == name@;
            assert(names@[j]@ != name@);
        }
    }
    None
}

} // verus!
