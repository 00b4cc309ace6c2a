//! The text form of definitions, read from bytes.
//!
//! A file is a sequence of definitions:
//!
//! ```text
//! component Or2(a, b) -> x {
//!     Nand(a) -> n_a;
//!     Nand(b) -> n_b;
//!     Nand(n_a, n_b) -> x;
//! }
//! ```
//!
//! A statement is an instance, as above, or an assignment, `x = y;` or
//! `(x, y) = (a, b);`. A signal is a name, an element of an array, `a[2]`,
//! or a range of elements, `a[3:0]`, which stands for `a[3]`, `a[2]`, `a[1]`,
//! `a[0]` in this order. The output of a definition or of an instance is one
//! signal or a list in parentheses. A list may end in a comma. `//` starts a
//! comment that runs to the end of the line.

use crate::factory::{sources_view, spec_accepts, spec_refuses, ComponentFactory, FactoryError};
use crate::info::CompInfo;
use crate::lines::{locate, spec_location, Location};
use crate::model::InfoModel;
use crate::names::{names_view, numbered, same_name, spec_decimal};
use crate::parser::{body_view, spec_assignment_name};
use vstd::prelude::*;
use vstd::string::*;

verus! {

/// What was expected where the text could not be read on.
#[derive(Debug, Copy, Clone, PartialEq, Eq, Structural)]
pub enum Expected {
    /// The word `component`.
    Component,
    /// A name.
    Name,
    /// A number.
    Number,
    /// A number that fits the machine.
    SmallerNumber,
    /// `(`.
    OpenParen,
    /// `,` or `)`.
    CommaOrCloseParen,
    /// `:` or `]`.
    ColonOrCloseBracket,
    /// `]`.
    CloseBracket,
    /// `->`.
    Arrow,
    /// `{`.
    OpenBrace,
    /// `=`.
    Equals,
    /// `;`.
    Semicolon,
    /// The end of the text.
    End,
}

/// Where the text could not be read on, and what was expected there.
#[derive(Debug, Copy, Clone, PartialEq, Eq, Structural)]
pub struct SyntaxError {
    pub position: usize,
    pub expected: Expected,
}

/// Whether `b` is blank: a space, a tab, a line feed or a carriage return.
pub open spec fn spec_is_blank(b: u8) -> bool {
    b == 32 || b == 9 || b == 10 || b == 13
}

/// Whether `b` can start a name: a letter or an underscore.
pub open spec fn spec_is_name_start(b: u8) -> bool {
    (65 <= b <= 90) || (97 <= b <= 122) || b == 95
}

/// Whether `b` is a digit.
pub open spec fn spec_is_digit(b: u8) -> bool {
    48 <= b <= 57
}

/// Whether `b` can stand in a name.
pub open spec fn spec_is_name_char(b: u8) -> bool {
    spec_is_name_start(b) || spec_is_digit(b)
}

/// The first position from `pos` on that holds a line feed, or the end.
pub open spec fn spec_line_end(src: Seq<u8>, pos: int) -> int
    decreases src.len() - pos,
{
    if pos < 0 || pos >= src.len() || src[pos] == 10 {
        pos
    } else {
        spec_line_end(src, pos + 1)
    }
}

/// The first position from `pos` on that is neither blank nor in a comment.
pub open spec fn spec_skip(src: Seq<u8>, pos: int) -> int
    decreases src.len() - pos,
{
    if pos < 0 || pos >= src.len() {
        pos
    } else if spec_is_blank(src[pos]) {
        spec_skip(src, pos + 1)
    } else if src[pos] == 47 && pos + 1 < src.len() && src[pos + 1] == 47 {
        let end = spec_line_end(src, pos + 2);
        if pos < end <= src.len() {
            spec_skip(src, end)
        } else {
            pos
        }
    } else {
        pos
    }
}

/// The first position from `pos` on that holds no name character.
pub open spec fn spec_name_end(src: Seq<u8>, pos: int) -> int
    decreases src.len() - pos,
{
    if pos < 0 || pos >= src.len() || !spec_is_name_char(src[pos]) {
        pos
    } else {
        spec_name_end(src, pos + 1)
    }
}

/// The first position from `pos` on that holds no digit.
pub open spec fn spec_digits_end(src: Seq<u8>, pos: int) -> int
    decreases src.len() - pos,
{
    if pos < 0 || pos >= src.len() || !spec_is_digit(src[pos]) {
        pos
    } else {
        spec_digits_end(src, pos + 1)
    }
}

/// The number that the digits from `from` up to `to` write.
pub open spec fn spec_digits_value(src: Seq<u8>, from: int, to: int) -> nat
    decreases to - from,
{
    if to <= from {
        0
    } else {
        (10 * spec_digits_value(src, from, to - 1) + (src[to - 1] - 48)) as nat
    }
}

/// The bytes as characters.
pub open spec fn spec_chars(bytes: Seq<u8>) -> Seq<char> {
    Seq::new(bytes.len(), |i: int| bytes[i] as char)
}

/// The element `i` of the array `name`.
pub open spec fn spec_element(name: Seq<char>, i: nat) -> Seq<char> {
    name + "$"@ + spec_decimal(i)
}

/// The elements of the array `name` from `first` to `last`, counting down
/// where `first` is the greater.
pub open spec fn spec_range(name: Seq<char>, first: nat, last: nat) -> Seq<Seq<char>> {
    if first >= last {
        Seq::new((first - last + 1) as nat, |i: int| spec_element(name, (first - i) as nat))
    } else {
        Seq::new((last - first + 1) as nat, |i: int| spec_element(name, (first + i) as nat))
    }
}

/// The byte at `pos`, or 0 at the end of the text, where no byte of the
/// grammar stands.
pub open spec fn spec_at(src: Seq<u8>, pos: int) -> u8 {
    if 0 <= pos < src.len() {
        src[pos]
    } else {
        0
    }
}

/// The name that starts at `pos`, and where it ends.
pub open spec fn spec_name(src: Seq<u8>, pos: int) -> Result<(Seq<char>, int), SyntaxError> {
    if spec_is_name_start(spec_at(src, pos)) {
        Ok((spec_chars(src.subrange(pos, spec_name_end(src, pos))), spec_name_end(src, pos)))
    } else {
        Err(SyntaxError { position: pos as usize, expected: Expected::Name })
    }
}

/// The number that starts at `pos`, and where it ends.
pub open spec fn spec_number(src: Seq<u8>, pos: int) -> Result<(usize, int), SyntaxError> {
    let end = spec_digits_end(src, pos);
    if !spec_is_digit(spec_at(src, pos)) {
        Err(SyntaxError { position: pos as usize, expected: Expected::Number })
    } else if spec_digits_value(src, pos, end) > usize::MAX {
        Err(SyntaxError { position: pos as usize, expected: Expected::SmallerNumber })
    } else {
        Ok((spec_digits_value(src, pos, end) as usize, end))
    }
}

/// The names that the signal at `pos` stands for, and where it ends: a
/// name, or a name with an index or a range in brackets.
#[verifier::opaque]
pub open spec fn spec_signal(src: Seq<u8>, pos: int) -> Result<(Seq<Seq<char>>, int), SyntaxError> {
    match spec_name(src, pos) {
        Err(e) => Err(e),
        Ok((name, end)) => {
            let open = spec_skip(src, end);
            if spec_at(src, open) != 91 {
                Ok((seq![name], end))
            } else {
                match spec_number(src, spec_skip(src, open + 1)) {
                    Err(e) => Err(e),
                    Ok((first, after_first)) => {
                        let mark = spec_skip(src, after_first);
                        if spec_at(src, mark) == 93 {
                            Ok((seq![spec_element(name, first as nat)], mark + 1))
                        } else if spec_at(src, mark) == 58 {
                            match spec_number(src, spec_skip(src, mark + 1)) {
                                Err(e) => Err(e),
                                Ok((last, after_last)) => {
                                    let close = spec_skip(src, after_last);
                                    if spec_at(src, close) == 93 {
                                        Ok((spec_range(name, first as nat, last as nat), close + 1))
                                    } else {
                                        Err(
                                            SyntaxError {
                                                position: close as usize,
                                                expected: Expected::CloseBracket,
                                            },
                                        )
                                    }
                                },
                            }
                        } else {
                            Err(
                                SyntaxError {
                                    position: mark as usize,
                                    expected: Expected::ColonOrCloseBracket,
                                },
                            )
                        }
                    },
                }
            }
        },
    }
}

/// The names of the signals of a list, after its opening parenthesis, from
/// the position `pos` of an item or of the closing parenthesis on, added to
/// `acc`; and where the list ends.
pub open spec fn spec_items(src: Seq<u8>, pos: int, acc: Seq<Seq<char>>) -> Result<
    (Seq<Seq<char>>, int),
    SyntaxError,
>
    decreases src.len() - pos,
{
    if spec_at(src, pos) == 41 {
        Ok((acc, pos + 1))
    } else {
        match spec_signal(src, pos) {
            Err(e) => Err(e),
            Ok((names, end)) => {
                let mark = spec_skip(src, end);
                if spec_at(src, mark) == 41 {
                    Ok((acc + names, mark + 1))
                } else if spec_at(src, mark) == 44 && pos < spec_skip(src, mark + 1) <= src.len() {
                    spec_items(src, spec_skip(src, mark + 1), acc + names)
                } else {
                    Err(
                        SyntaxError {
                            position: mark as usize,
                            expected: Expected::CommaOrCloseParen,
                        },
                    )
                }
            },
        }
    }
}

/// The names of the signals of the list at `pos`, and where it ends.
pub open spec fn spec_list(src: Seq<u8>, pos: int) -> Result<(Seq<Seq<char>>, int), SyntaxError> {
    if spec_at(src, pos) == 40 {
        spec_items(src, spec_skip(src, pos + 1), Seq::empty())
    } else {
        Err(SyntaxError { position: pos as usize, expected: Expected::OpenParen })
    }
}

/// The names of the signal or of the list at `pos`, and where it ends.
pub open spec fn spec_signals(src: Seq<u8>, pos: int) -> Result<(Seq<Seq<char>>, int), SyntaxError> {
    if spec_at(src, pos) == 40 {
        spec_list(src, pos)
    } else {
        spec_signal(src, pos)
    }
}

/// Skipping ends at or after its start, and not beyond the end.
pub proof fn lemma_skip(src: Seq<u8>, pos: int)
    requires
        0 <= pos <= src.len(),
    ensures
        pos <= spec_skip(src, pos) <= src.len(),
        pos <= spec_line_end(src, pos) <= src.len(),
        pos <= spec_name_end(src, pos) <= src.len(),
        pos <= spec_digits_end(src, pos) <= src.len(),
        spec_is_name_char(spec_at(src, pos)) ==> pos < spec_name_end(src, pos),
        spec_is_digit(spec_at(src, pos)) ==> pos < spec_digits_end(src, pos),
    decreases src.len() - pos,
{
    if pos < src.len() {
        lemma_skip(src, pos + 1);
        if src[pos] == 47 && pos + 1 < src.len() && src[pos + 1] == 47 {
            lemma_skip(src, pos + 2);
            let end = spec_line_end(src, pos + 2);
            lemma_skip(src, end);
        }
    }
}

/// Appends `c` to `s`, as `String::push` does.
#[verifier::external_body]
fn push_char(s: &mut String, c: char)
    ensures
        final(s)@ == old(s)@.push(c),
{
    s.push(c)
}

/// The first position from `pos` on that is neither blank nor in a comment.
pub fn skip(src: &[u8], pos: usize) -> (r: usize)
    requires
        pos <= src@.len(),
    ensures
        r == spec_skip(src@, pos as int),
        pos <= r <= src@.len(),
{
    let mut p = pos;
    proof {
        lemma_skip(src@, pos as int);
    }
    loop
        invariant
            pos <= p <= src@.len(),
            spec_skip(src@, pos as int) == spec_skip(src@, p as int),
        ensures
            p == spec_skip(src@, pos as int),
            pos <= p <= src@.len(),
        decreases src@.len() - p,
    {
        if p >= src.len() {
            break ;
        }
        let b = src[p];
        if b == 32 || b == 9 || b == 10 || b == 13 {
            p += 1;
        } else if b == 47 && p + 1 < src.len() && src[p + 1] == 47 {
            let ghost start = p;
            let mut q = p + 2;
            while q < src.len() && src[q] != 10
                invariant
                    start + 2 <= q <= src@.len(),
                    spec_line_end(src@, start + 2) == spec_line_end(src@, q as int),
                decreases src@.len() - q,
            {
                q += 1;
            }
            p = q;
        } else {
            break ;
        }
    }
    p
}

/// The byte at `pos`, or 0 at the end of the text.
pub fn at(src: &[u8], pos: usize) -> (b: u8)
    ensures
        b == spec_at(src@, pos as int),
        b != 0 ==> pos < src@.len() && pos < usize::MAX,
{
    if pos < src.len() {
        src[pos]
    } else {
        0
    }
}

fn is_name_start(b: u8) -> (r: bool)
    ensures
        r == spec_is_name_start(b),
{
    (65 <= b && b <= 90) || (97 <= b && b <= 122) || b == 95
}

fn is_digit(b: u8) -> (r: bool)
    ensures
        r == spec_is_digit(b),
{
    48 <= b && b <= 57
}

/// The name that starts at `pos`, and where it ends.
pub fn name(src: &[u8], pos: usize) -> (r: Result<(String, usize), SyntaxError>)
    requires
        pos <= src@.len(),
    ensures
        match r {
            Ok((s, end)) => spec_name(src@, pos as int) == Ok::<_, SyntaxError>((s@, end as int))
                && pos < end <= src@.len(),
            Err(e) => spec_name(src@, pos as int) == Err::<(Seq<char>, int), _>(e),
        },
{
    if !is_name_start(at(src, pos)) {
        return Err(SyntaxError { position: pos, expected: Expected::Name });
    }
    let mut s = String::new();
    let mut p = pos;
    proof {
        lemma_skip(src@, pos as int);
    }
    while p < src.len() && (is_name_start(src[p]) || is_digit(src[p]))
        invariant
            pos <= p <= src@.len(),
            spec_name_end(src@, pos as int) == spec_name_end(src@, p as int),
            s@ == spec_chars(src@.subrange(pos as int, p as int)),
        decreases src@.len() - p,
    {
        push_char(&mut s, src[p] as char);
        p += 1;
        assert(s@ =~= spec_chars(src@.subrange(pos as int, p as int)));
    }
    Ok((s, p))
}

/// The number that starts at `pos`, and where it ends.
pub fn number(src: &[u8], pos: usize) -> (r: Result<(usize, usize), SyntaxError>)
    requires
        pos <= src@.len(),
    ensures
        match r {
            Ok((n, end)) => spec_number(src@, pos as int) == Ok::<_, SyntaxError>((n, end as int))
                && pos < end <= src@.len(),
            Err(e) => spec_number(src@, pos as int) == Err::<(usize, int), _>(e),
        },
{
    if !is_digit(at(src, pos)) {
        return Err(SyntaxError { position: pos, expected: Expected::Number });
    }
    let mut n: usize = 0;
    let mut p = pos;
    let mut fits = true;
    proof {
        lemma_skip(src@, pos as int);
    }
    while p < src.len() && is_digit(src[p])
        invariant
            pos <= p <= src@.len(),
            spec_digits_end(src@, pos as int) == spec_digits_end(src@, p as int),
            fits ==> n == spec_digits_value(src@, pos as int, p as int),
            !fits ==> spec_digits_value(src@, pos as int, p as int) > usize::MAX,
        decreases src@.len() - p,
    {
        let d = (src[p] - 48) as usize;
        if fits {
            if n > (usize::MAX - d) / 10 {
                fits = false;
                assert(10 * n + d > usize::MAX) by (nonlinear_arith)
                    requires
                        n > (usize::MAX - d) / 10,
                        d <= 9,
                ;
            } else {
                assert(10 * n + d <= usize::MAX) by (nonlinear_arith)
                    requires
                        n <= (usize::MAX - d) / 10,
                        d <= 9,
                ;
                n = 10 * n + d;
            }
        }
        p += 1;
    }
    if fits {
        Ok((n, p))
    } else {
        Err(SyntaxError { position: pos, expected: Expected::SmallerNumber })
    }
}

/// The name of the element `i` of the array `name`.
pub fn element(name: &String, i: usize) -> (r: String)
    ensures
        r@ == spec_element(name@, i as nat),
{
    let mut prefix = name.clone();
    prefix.append("$");
    numbered(prefix.as_str(), i)
}

/// The names of the elements of the array `name` from `first` to `last`.
pub fn range(name: &String, first: usize, last: usize) -> (v: Vec<String>)
    ensures
        names_view(v@) == spec_range(name@, first as nat, last as nat),
{
    let mut v: Vec<String> = Vec::new();
    if first >= last {
        let mut i: usize = first;
        loop
            invariant_except_break
                v@.len() == first - i,
            invariant
                last <= i <= first,
                forall|j: int|
                    0 <= j < v@.len() ==> (#[trigger] v@[j])@ == spec_element(
                        name@,
                        (first - j) as nat,
                    ),
            ensures
                v@.len() == first - last + 1,
                forall|j: int|
                    0 <= j < v@.len() ==> (#[trigger] v@[j])@ == spec_element(
                        name@,
                        (first - j) as nat,
                    ),
            decreases i - last,
        {
            v.push(element(name, i));
            if i == last {
                break ;
            }
            i -= 1;
        }
        assert(names_view(v@) =~= spec_range(name@, first as nat, last as nat));
    } else {
        let mut i: usize = first;
        while i < last
            invariant
                first <= i <= last,
                v@.len() == i - first,
                forall|j: int|
                    0 <= j < v@.len() ==> (#[trigger] v@[j])@ == spec_element(
                        name@,
                        (first + j) as nat,
                    ),
            decreases last - i,
        {
            v.push(element(name, i));
            i += 1;
        }
        v.push(element(name, last));
        assert(names_view(v@) =~= spec_range(name@, first as nat, last as nat));
    }
    v
}

/// The names that the signal at `pos` stands for, and where it ends.
pub fn signal(src: &[u8], pos: usize) -> (r: Result<(Vec<String>, usize), SyntaxError>)
    requires
        pos <= src@.len(),
    ensures
        match r {
            Ok((v, end)) => spec_signal(src@, pos as int) == Ok::<_, SyntaxError>(
                (names_view(v@), end as int),
            ) && pos < end <= src@.len(),
            Err(e) => spec_signal(src@, pos as int) == Err::<(Seq<Seq<char>>, int), _>(e),
        },
{
    proof {
        reveal(spec_signal);
    }
    let (base, end) = match name(src, pos) {
        Ok(r) => r,
        Err(e) => {
            return Err(e);
        },
    };
    let open = skip(src, end);
    if at(src, open) != 91 {
        let mut v: Vec<String> = Vec::new();
        v.push(base);
        assert(names_view(v@) =~= seq![base@]);
        return Ok((v, end));
    }
    let (first, after_first) = match number(src, skip(src, open + 1)) {
        Ok(r) => r,
        Err(e) => {
            return Err(e);
        },
    };
    let mark = skip(src, after_first);
    if at(src, mark) == 93 {
        let mut v: Vec<String> = Vec::new();
        v.push(element(&base, first));
        assert(names_view(v@) =~= seq![spec_element(base@, first as nat)]);
        Ok((v, mark + 1))
    } else if at(src, mark) == 58 {
        let (last, after_last) = match number(src, skip(src, mark + 1)) {
            Ok(r) => r,
            Err(e) => {
                return Err(e);
            },
        };
        let close = skip(src, after_last);
        if at(src, close) == 93 {
            Ok((range(&base, first, last), close + 1))
        } else {
            Err(SyntaxError { position: close, expected: Expected::CloseBracket })
        }
    } else {
        Err(SyntaxError { position: mark, expected: Expected::ColonOrCloseBracket })
    }
}

/// The names of the signals of the list at `pos`, and where it ends.
pub fn list(src: &[u8], pos: usize) -> (r: Result<(Vec<String>, usize), SyntaxError>)
    requires
        pos <= src@.len(),
    ensures
        match r {
            Ok((v, end)) => spec_list(src@, pos as int) == Ok::<_, SyntaxError>(
                (names_view(v@), end as int),
            ) && pos < end <= src@.len(),
            Err(e) => spec_list(src@, pos as int) == Err::<(Seq<Seq<char>>, int), _>(e),
        },
{
    if at(src, pos) != 40 {
        return Err(SyntaxError { position: pos, expected: Expected::OpenParen });
    }
    let mut acc: Vec<String> = Vec::new();
    let mut p = skip(src, pos + 1);
    let ghost start = p;
    assert(names_view(acc@) =~= Seq::<Seq<char>>::empty());
    loop
        invariant
            pos < p <= src@.len(),
            spec_items(src@, start as int, Seq::empty()) == spec_items(
                src@,
                p as int,
                names_view(acc@),
            ),
            spec_list(src@, pos as int) == spec_items(src@, start as int, Seq::empty()),
        decreases src@.len() - p,
    {
        if at(src, p) == 41 {
            return Ok((acc, p + 1));
        }
        let (mut names, end) = match signal(src, p) {
            Ok(r) => r,
            Err(e) => {
                return Err(e);
            },
        };
        let ghost before = names_view(acc@);
        let ghost more = names_view(names@);
        acc.append(&mut names);
        assert(names_view(acc@) =~= before + more);
        let mark = skip(src, end);
        if at(src, mark) == 41 {
            return Ok((acc, mark + 1));
        } else if at(src, mark) == 44 {
            p = skip(src, mark + 1);
        } else {
            return Err(SyntaxError { position: mark, expected: Expected::CommaOrCloseParen });
        }
    }
}

/// The names of the signal or of the list at `pos`, and where it ends.
pub fn signals(src: &[u8], pos: usize) -> (r: Result<(Vec<String>, usize), SyntaxError>)
    requires
        pos <= src@.len(),
    ensures
        match r {
            Ok((v, end)) => spec_signals(src@, pos as int) == Ok::<_, SyntaxError>(
                (names_view(v@), end as int),
            ) && pos < end <= src@.len(),
            Err(e) => spec_signals(src@, pos as int) == Err::<(Seq<Seq<char>>, int), _>(e),
        },
{
    if at(src, pos) == 40 {
        list(src, pos)
    } else {
        signal(src, pos)
    }
}

/// The outputs named after the arrow that follows `pos`, and where they
/// end.
#[verifier::opaque]
pub open spec fn spec_arrow(src: Seq<u8>, pos: int) -> Result<(Seq<Seq<char>>, int), SyntaxError> {
    let a = spec_skip(src, pos);
    if spec_at(src, a) == 45 && spec_at(src, a + 1) == 62 {
        spec_signals(src, spec_skip(src, a + 2))
    } else {
        Err(SyntaxError { position: a as usize, expected: Expected::Arrow })
    }
}

/// The assignment of which `lhs` is the left side, read up to `pos`; and
/// where it ends.
#[verifier::opaque]
pub open spec fn spec_assignment(src: Seq<u8>, lhs: Seq<Seq<char>>, pos: int) -> Result<
    (InfoModel, int),
    SyntaxError,
> {
    let eq = spec_skip(src, pos);
    if spec_at(src, eq) != 61 {
        Err(SyntaxError { position: eq as usize, expected: Expected::Equals })
    } else {
        match spec_signals(src, spec_skip(src, eq + 1)) {
            Err(e) => Err(e),
            Ok((rhs, end)) => {
                let semi = spec_skip(src, end);
                if spec_at(src, semi) == 59 {
                    Ok(
                        (
                            InfoModel { name: spec_assignment_name(), inputs: lhs, outputs: rhs },
                            semi + 1,
                        ),
                    )
                } else {
                    Err(SyntaxError { position: semi as usize, expected: Expected::Semicolon })
                }
            },
        }
    }
}

/// The statement at `pos`, and where it ends: an assignment if it starts
/// with a list, an instance if it starts with a name and a list, and an
/// assignment otherwise.
#[verifier::opaque]
pub open spec fn spec_statement(src: Seq<u8>, pos: int) -> Result<(InfoModel, int), SyntaxError> {
    if spec_at(src, pos) == 40 {
        match spec_list(src, pos) {
            Err(e) => Err(e),
            Ok((lhs, end)) => spec_assignment(src, lhs, end),
        }
    } else {
        match spec_name(src, pos) {
            Err(e) => Err(e),
            Ok((name, end)) => {
                let open = spec_skip(src, end);
                if spec_at(src, open) == 40 {
                    match spec_list(src, open) {
                        Err(e) => Err(e),
                        Ok((inputs, after)) => match spec_arrow(src, after) {
                            Err(e) => Err(e),
                            Ok((outputs, end)) => {
                                let semi = spec_skip(src, end);
                                if spec_at(src, semi) == 59 {
                                    Ok((InfoModel { name, inputs, outputs }, semi + 1))
                                } else {
                                    Err(
                                        SyntaxError {
                                            position: semi as usize,
                                            expected: Expected::Semicolon,
                                        },
                                    )
                                }
                            },
                        },
                    }
                } else {
                    match spec_signal(src, pos) {
                        Err(e) => Err(e),
                        Ok((lhs, end)) => spec_assignment(src, lhs, end),
                    }
                }
            },
        }
    }
}

/// The statements of a body, after its opening brace, from the position
/// `pos` of a statement or of the closing brace on, added to `acc`; and
/// where the body ends.
pub open spec fn spec_statements(src: Seq<u8>, pos: int, acc: Seq<InfoModel>) -> Result<
    (Seq<InfoModel>, int),
    SyntaxError,
>
    decreases src.len() - pos,
{
    if spec_at(src, pos) == 125 {
        Ok((acc, pos + 1))
    } else {
        match spec_statement(src, pos) {
            Err(e) => Err(e),
            Ok((c, end)) => if pos < spec_skip(src, end) <= src.len() {
                spec_statements(src, spec_skip(src, end), acc.push(c))
            } else {
                Err(SyntaxError { position: pos as usize, expected: Expected::Semicolon })
            },
        }
    }
}

/// The definition at `pos`, and where it ends.
#[verifier::opaque]
pub open spec fn spec_component(src: Seq<u8>, pos: int) -> Result<
    ((InfoModel, Seq<InfoModel>), int),
    SyntaxError,
> {
    let word = spec_name(src, pos);
    if word is Err || word->Ok_0.0 != "component"@ {
        Err(SyntaxError { position: pos as usize, expected: Expected::Component })
    } else {
        match spec_name(src, spec_skip(src, word->Ok_0.1)) {
            Err(e) => Err(e),
            Ok((name, end)) => match spec_list(src, spec_skip(src, end)) {
                Err(e) => Err(e),
                Ok((inputs, end)) => match spec_arrow(src, end) {
                    Err(e) => Err(e),
                    Ok((outputs, end)) => {
                        let open = spec_skip(src, end);
                        if spec_at(src, open) != 123 {
                            Err(
                                SyntaxError {
                                    position: open as usize,
                                    expected: Expected::OpenBrace,
                                },
                            )
                        } else {
                            match spec_statements(src, spec_skip(src, open + 1), Seq::empty()) {
                                Err(e) => Err(e),
                                Ok((body, end)) => Ok(
                                    ((InfoModel { name, inputs, outputs }, body), end),
                                ),
                            }
                        }
                    },
                },
            },
        }
    }
}

/// The definitions from the position `pos` of a definition or of the end of
/// the text on, added to `acc`.
pub open spec fn spec_components(
    src: Seq<u8>,
    pos: int,
    acc: Seq<(InfoModel, Seq<InfoModel>)>,
) -> Result<Seq<(InfoModel, Seq<InfoModel>)>, SyntaxError>
    decreases src.len() - pos,
{
    if pos >= src.len() {
        Ok(acc)
    } else {
        match spec_component(src, pos) {
            Err(e) => Err(e),
            Ok((c, end)) => if pos < spec_skip(src, end) <= src.len() {
                spec_components(src, spec_skip(src, end), acc.push(c))
            } else {
                Err(SyntaxError { position: pos as usize, expected: Expected::Component })
            },
        }
    }
}

/// The definitions that the text `src` holds.
pub open spec fn spec_file(src: Seq<u8>) -> Result<Seq<(InfoModel, Seq<InfoModel>)>, SyntaxError> {
    spec_components(src, spec_skip(src, 0), Seq::empty())
}

/// The one definition that the text `src` holds.
pub open spec fn spec_definition(src: Seq<u8>) -> Result<(InfoModel, Seq<InfoModel>), SyntaxError> {
    match spec_component(src, spec_skip(src, 0)) {
        Err(e) => Err(e),
        Ok((c, end)) => if spec_skip(src, end) >= src.len() {
            Ok(c)
        } else {
            Err(SyntaxError { position: spec_skip(src, end) as usize, expected: Expected::End })
        },
    }
}

fn arrow(src: &[u8], pos: usize) -> (r: Result<(Vec<String>, usize), SyntaxError>)
    requires
        pos <= src@.len(),
    ensures
        match r {
            Ok((v, end)) => spec_arrow(src@, pos as int) == Ok::<_, SyntaxError>(
                (names_view(v@), end as int),
            ) && pos < end <= src@.len(),
            Err(e) => spec_arrow(src@, pos as int) == Err::<(Seq<Seq<char>>, int), _>(e),
        },
{
    proof {
        reveal(spec_arrow);
    }
    let a = skip(src, pos);
    if at(src, a) == 45 && a < src.len() && at(src, a + 1) == 62 {
        signals(src, skip(src, a + 2))
    } else {
        Err(SyntaxError { position: a, expected: Expected::Arrow })
    }
}

fn assignment(src: &[u8], lhs: Vec<String>, pos: usize) -> (r: Result<(CompInfo, usize), SyntaxError>)
    requires
        pos <= src@.len(),
    ensures
        match r {
            Ok((c, end)) => spec_assignment(src@, names_view(lhs@), pos as int) == Ok::<
                _,
                SyntaxError,
            >((c@, end as int)) && pos < end <= src@.len(),
            Err(e) => spec_assignment(src@, names_view(lhs@), pos as int) == Err::<
                (InfoModel, int),
                _,
            >(e),
        },
{
    proof {
        reveal(spec_assignment);
    }
    let eq = skip(src, pos);
    if at(src, eq) != 61 {
        return Err(SyntaxError { position: eq, expected: Expected::Equals });
    }
    let (rhs, end) = match signals(src, skip(src, eq + 1)) {
        Ok(r) => r,
        Err(e) => {
            return Err(e);
        },
    };
    let semi = skip(src, end);
    if at(src, semi) == 59 {
        let c = CompInfo::new(String::from_str("actually, I'm just an assignment"), lhs, rhs);
        Ok((c, semi + 1))
    } else {
        Err(SyntaxError { position: semi, expected: Expected::Semicolon })
    }
}

/// The statement at `pos`, and where it ends.
pub fn statement(src: &[u8], pos: usize) -> (r: Result<(CompInfo, usize), SyntaxError>)
    requires
        pos <= src@.len(),
    ensures
        match r {
            Ok((c, end)) => spec_statement(src@, pos as int) == Ok::<_, SyntaxError>(
                (c@, end as int),
            ) && pos < end <= src@.len(),
            Err(e) => spec_statement(src@, pos as int) == Err::<(InfoModel, int), _>(e),
        },
{
    proof {
        reveal(spec_statement);
    }
    if at(src, pos) == 40 {
        let (lhs, end) = match list(src, pos) {
            Ok(r) => r,
            Err(e) => {
                return Err(e);
            },
        };
        return assignment(src, lhs, end);
    }
    let (kind, end) = match name(src, pos) {
        Ok(r) => r,
        Err(e) => {
            return Err(e);
        },
    };
    let open = skip(src, end);
    if at(src, open) == 40 {
        let (inputs, after) = match list(src, open) {
            Ok(r) => r,
            Err(e) => {
                return Err(e);
            },
        };
        let (outputs, end) = match arrow(src, after) {
            Ok(r) => r,
            Err(e) => {
                return Err(e);
            },
        };
        let semi = skip(src, end);
        if at(src, semi) == 59 {
            Ok((CompInfo::new(kind, inputs, outputs), semi + 1))
        } else {
            Err(SyntaxError { position: semi, expected: Expected::Semicolon })
        }
    } else {
        let (lhs, end) = match signal(src, pos) {
            Ok(r) => r,
            Err(e) => {
                return Err(e);
            },
        };
        assignment(src, lhs, end)
    }
}

/// The definition with the signature `sig` and the body that was read, if
/// one was.
pub open spec fn spec_with_body(
    sig: InfoModel,
    body: Result<(Seq<InfoModel>, int), SyntaxError>,
) -> Result<((InfoModel, Seq<InfoModel>), int), SyntaxError> {
    match body {
        Err(e) => Err(e),
        Ok((body, end)) => Ok(((sig, body), end)),
    }
}

/// The definition at `pos`, and where it ends.
pub fn component(src: &[u8], pos: usize) -> (r: Result<((CompInfo, Vec<CompInfo>), usize), SyntaxError>)
    requires
        pos <= src@.len(),
    ensures
        match r {
            Ok((c, end)) => spec_component(src@, pos as int) == Ok::<_, SyntaxError>(
                ((c.0@, body_view(c.1@)), end as int),
            ) && pos < end <= src@.len(),
            Err(e) => spec_component(src@, pos as int) == Err::<
                ((InfoModel, Seq<InfoModel>), int),
                _,
            >(e),
        },
{
    proof {
        reveal(spec_component);
    }
    let after_word = match name(src, pos) {
        Ok((word, end)) => {
            if !same_name(word.as_str(), "component") {
                return Err(SyntaxError { position: pos, expected: Expected::Component });
            }
            end
        },
        Err(_) => {
            return Err(SyntaxError { position: pos, expected: Expected::Component });
        },
    };
    let (kind, end) = match name(src, skip(src, after_word)) {
        Ok(r) => r,
        Err(e) => {
            return Err(e);
        },
    };
    let (inputs, end) = match list(src, skip(src, end)) {
        Ok(r) => r,
        Err(e) => {
            return Err(e);
        },
    };
    let (outputs, end) = match arrow(src, end) {
        Ok(r) => r,
        Err(e) => {
            return Err(e);
        },
    };
    let open = skip(src, end);
    if at(src, open) != 123 {
        return Err(SyntaxError { position: open, expected: Expected::OpenBrace });
    }
    let mut body: Vec<CompInfo> = Vec::new();
    let mut p = skip(src, open + 1);
    let ghost start = p;
    assert(body_view(body@) =~= Seq::<InfoModel>::empty());
    let ghost sig = InfoModel {
        name: kind@,
        inputs: names_view(inputs@),
        outputs: names_view(outputs@),
    };
    assert(spec_component(src@, pos as int) == spec_with_body(
        sig,
        spec_statements(src@, start as int, Seq::empty()),
    ));
    loop
        invariant
            pos < p <= src@.len(),
            sig == (InfoModel {
                name: kind@,
                inputs: names_view(inputs@),
                outputs: names_view(outputs@),
            }),
            spec_component(src@, pos as int) == spec_with_body(
                sig,
                spec_statements(src@, start as int, Seq::empty()),
            ),
            spec_statements(src@, start as int, Seq::empty()) == spec_statements(
                src@,
                p as int,
                body_view(body@),
            ),
        decreases src@.len() - p,
    {
        if at(src, p) == 125 {
            let sig = CompInfo::new(kind, inputs, outputs);
            return Ok(((sig, body), p + 1));
        }
        let (c, end) = match statement(src, p) {
            Ok(r) => r,
            Err(e) => {
                return Err(e);
            },
        };
        let ghost before = body_view(body@);
        body.push(c);
        assert(body_view(body@) =~= before.push(c@));
        p = skip(src, end);
    }
}

/// The definitions that the text `src` holds.
pub fn parse_file(src: &[u8]) -> (r: Result<Vec<(CompInfo, Vec<CompInfo>)>, SyntaxError>)
    ensures
        match r {
            Ok(all) => spec_file(src@) == Ok::<_, SyntaxError>(sources_view(all@)),
            Err(e) => spec_file(src@) == Err::<Seq<(InfoModel, Seq<InfoModel>)>, _>(e),
        },
{
    let mut all: Vec<(CompInfo, Vec<CompInfo>)> = Vec::new();
    let mut p = skip(src, 0);
    let ghost start = p;
    assert(sources_view(all@) =~= Seq::<(InfoModel, Seq<InfoModel>)>::empty());
    while p < src.len()
        invariant
            p <= src@.len(),
            start == spec_skip(src@, 0),
            spec_components(src@, start as int, Seq::empty()) == spec_components(
                src@,
                p as int,
                sources_view(all@),
            ),
        decreases src@.len() - p,
    {
        let (c, end) = match component(src, p) {
            Ok(r) => r,
            Err(e) => {
                return Err(e);
            },
        };
        let ghost before = sources_view(all@);
        let ghost cv = (c.0@, body_view(c.1@));
        all.push(c);
        assert(sources_view(all@) =~= before.push(cv));
        p = skip(src, end);
    }
    Ok(all)
}

/// The one definition that the text `src` holds.
pub fn parse_definition(src: &[u8]) -> (r: Result<(CompInfo, Vec<CompInfo>), SyntaxError>)
    ensures
        match r {
            Ok(c) => spec_definition(src@) == Ok::<_, SyntaxError>((c.0@, body_view(c.1@))),
            Err(e) => spec_definition(src@) == Err::<(InfoModel, Seq<InfoModel>), _>(e),
        },
{
    let (c, end) = match component(src, skip(src, 0)) {
        Ok(r) => r,
        Err(e) => {
            return Err(e);
        },
    };
    let rest = skip(src, end);
    if rest >= src.len() {
        Ok(c)
    } else {
        Err(SyntaxError { position: rest, expected: Expected::End })
    }
}

/// Why a text gives no factory.
#[derive(Debug)]
pub enum ParseError {
    /// The text cannot be read; `location` is the line and column of the
    /// place.
    Syntax { error: SyntaxError, location: Option<Location> },
    /// The definitions of the text are not accepted.
    Factory(FactoryError),
}

/// Reads the definitions of the text `bs` and makes the factory of them.
pub fn parse_str(bs: &str) -> (r: Result<ComponentFactory, ParseError>)
    ensures
        match spec_file(bs.spec_bytes()) {
            Err(e) => r matches Err(ParseError::Syntax { error, location }) && error == e && (
            bs.spec_bytes().len() < usize::MAX ==> location == spec_location(
                bs.spec_bytes(),
                e.position,
            )),
            Ok(av) => match r {
                Ok(f) => spec_accepts(av, f@),
                Err(ParseError::Factory(e)) => spec_refuses(av, e),
                Err(ParseError::Syntax { .. }) => false,
            },
        },
{
    let src = bs.as_bytes();
    match parse_file(src) {
        Err(error) => {
            let location = if src.len() < usize::MAX {
                locate(src, error.position)
            } else {
                None
            };
            Err(ParseError::Syntax { error, location })
        },
        Ok(all) => match ComponentFactory::new(all) {
            Ok(f) => Ok(f),
            Err(e) => Err(ParseError::Factory(e)),
        },
    }
}

} // verus!
