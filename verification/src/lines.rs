//! Lines and columns of positions in a source text.

use crate::names::numbered;
use vstd::prelude::*;
use vstd::string::*;

verus! {

/// The number of a line, counted from 1.
#[derive(Copy, Clone, Debug, PartialEq, Eq, Structural)]
pub struct Line(pub usize);

/// The number of a column, counted from 1.
#[derive(Copy, Clone, Debug, PartialEq, Eq, Structural)]
pub struct Column(pub usize);

/// A position in a text: its line, its column in the line, and its distance
/// in bytes from the start of the text.
#[derive(Copy, Clone, Debug, PartialEq, Eq, Structural)]
pub struct Location {
    pub line: Line,
    pub column: Column,
    pub absolute: usize,
}

/// Where the lines of the first `n` bytes of `src` start: at 0, and after
/// each line feed.
pub open spec fn spec_line_starts(src: Seq<u8>, n: nat) -> Seq<usize>
    decreases n,
{
    if n == 0 {
        seq![0usize]
    } else {
        let before = spec_line_starts(src, (n - 1) as nat);
        if src[n - 1] == 10u8 {
            before.push(n as usize)
        } else {
            before
        }
    }
}

/// The number, counted from 0, of the last of the first `n` lines that
/// starts at or before `byte`.
pub open spec fn spec_line_index(starts: Seq<usize>, byte: int, n: nat) -> int
    decreases n,
{
    if n <= 1 {
        0
    } else if starts[n - 1] <= byte {
        n - 1
    } else {
        spec_line_index(starts, byte, (n - 1) as nat)
    }
}

/// The line starts are ordered, begin with 0, and none lies beyond `n`.
pub proof fn lemma_line_starts(src: Seq<u8>, n: nat)
    requires
        n <= src.len(),
        n <= usize::MAX,
    ensures
        spec_line_starts(src, n).len() >= 1,
        spec_line_starts(src, n)[0] == 0,
        forall|i: int|
            0 <= i < spec_line_starts(src, n).len() ==> #[trigger] spec_line_starts(src, n)[i] <= n,
        forall|i: int, j: int|
            0 <= i < j < spec_line_starts(src, n).len() ==> spec_line_starts(src, n)[i]
                < spec_line_starts(src, n)[j],
        forall|i: int|
            1 <= i < spec_line_starts(src, n).len() ==> src[(#[trigger] spec_line_starts(src, n)[i])
                - 1] == 10u8,
    decreases n,
{
    if n > 0 {
        lemma_line_starts(src, (n - 1) as nat);
        let before = spec_line_starts(src, (n - 1) as nat);
        let now = spec_line_starts(src, n);
        assert forall|i: int, j: int| 0 <= i < j < now.len() implies now[i] < now[j] by {
            if j < before.len() {
                assert(before[i] < before[j]);
            } else {
                assert(before[i] <= n - 1);
            }
        }
        assert forall|i: int| 0 <= i < now.len() implies #[trigger] now[i] <= n by {
            if i < before.len() {
                assert(before[i] <= n - 1);
            }
        }
        assert forall|i: int| 1 <= i < now.len() implies src[(#[trigger] now[i]) - 1] == 10u8 by {
            if i < before.len() {
                assert(now[i] == before[i]);
            }
        }
    }
}

/// The line found for a position starts at or before it, and the next line,
/// if any of the `n`, starts after it.
pub proof fn lemma_line_index(starts: Seq<usize>, byte: int, n: nat)
    requires
        1 <= n <= starts.len(),
        starts[0] == 0,
        0 <= byte,
        forall|i: int, j: int| 0 <= i < j < starts.len() ==> starts[i] < starts[j],
    ensures
        0 <= spec_line_index(starts, byte, n) < n,
        starts[spec_line_index(starts, byte, n)] <= byte,
        forall|i: int| spec_line_index(starts, byte, n) < i < n ==> byte < #[trigger] starts[i],
    decreases n,
{
    if n > 1 && starts[n - 1] > byte {
        lemma_line_index(starts, byte, (n - 1) as nat);
    }
}

/// The line and column of the position `byte` in the text `src`, if it
/// lies in the text or at its end: the line is the last that starts at or
/// before the position, and the column counts from the start of the line.
pub open spec fn spec_location(src: Seq<u8>, byte: usize) -> Option<Location> {
    let starts = spec_line_starts(src, src.len());
    let line = spec_line_index(starts, byte as int, starts.len());
    if byte <= src.len() {
        Some(
            Location {
                line: Line((line + 1) as usize),
                column: Column((byte - starts[line] + 1) as usize),
                absolute: byte,
            },
        )
    } else {
        None
    }
}

/// The line and column of the position `byte` in the text `src`.
pub fn locate(src: &[u8], byte: usize) -> (r: Option<Location>)
    requires
        src@.len() < usize::MAX,
    ensures
        r == spec_location(src@, byte),
{
    Lines::new(src).location(byte)
}

/// The starts of the lines of a text.
pub struct Lines {
    starting_bytes: Vec<usize>,
    end: usize,
}

impl Lines {
    /// Where the lines start.
    pub closed spec fn starts(self) -> Seq<usize> {
        self.starting_bytes@
    }

    /// The length of the text.
    pub closed spec fn end(self) -> usize {
        self.end
    }

    /// There is a first line, at 0, and each line starts after the one
    /// before it; the text is shorter than the largest number.
    pub open spec fn wf(self) -> bool {
        &&& self.end() < usize::MAX
        &&& self.starts().len() >= 1
        &&& self.starts()[0] == 0
        &&& forall|i: int, j: int|
            0 <= i < j < self.starts().len() ==> self.starts()[i] < self.starts()[j]
    }

    /// The line starts of `src`.
    pub fn new(src: &[u8]) -> (r: Lines)
        requires
            src@.len() < usize::MAX,
        ensures
            r.wf(),
            r.starts() == spec_line_starts(src@, src@.len()),
            r.end() == src@.len(),
    {
        let mut starting_bytes: Vec<usize> = Vec::new();
        starting_bytes.push(0);
        let mut i: usize = 0;
        assert(starting_bytes@ =~= spec_line_starts(src@, 0));
        while i < src.len()
            invariant
                i <= src.len(),
                starting_bytes@ == spec_line_starts(src@, i as nat),
            decreases src.len() - i,
        {
            if src[i] == 10 {
                starting_bytes.push(i + 1);
            }
            i += 1;
        }
        proof {
            lemma_line_starts(src@, src@.len());
        }
        Lines { starting_bytes, end: src.len() }
    }

    /// The position at which the line `line_number` starts, if there is
    /// such a line.
    pub fn line(&self, line_number: Line) -> (r: Option<usize>)
        ensures
            r == (if 1 <= line_number.0 <= self.starts().len() {
                Some(self.starts()[line_number.0 - 1])
            } else {
                None
            }),
    {
        if line_number.0 == 0 || line_number.0 > self.starting_bytes.len() {
            None
        } else {
            Some(self.starting_bytes[line_number.0 - 1])
        }
    }

    /// The line that `byte` lies in: the last that starts at or before it.
    pub fn line_number_at_byte(&self, byte: usize) -> (r: Line)
        requires
            self.wf(),
        ensures
            r.0 == spec_line_index(self.starts(), byte as int, self.starts().len()) + 1,
            1 <= r.0 <= self.starts().len(),
            self.starts()[r.0 - 1] <= byte,
            forall|i: int| r.0 <= i < self.starts().len() ==> byte < #[trigger] self.starts()[i],
    {
        let num_lines = self.starting_bytes.len();
        let ghost starts = self.starting_bytes@;
        proof {
            lemma_line_index(starts, byte as int, num_lines as nat);
        }
        let mut n: usize = num_lines;
        while n > 1 && self.starting_bytes[n - 1] > byte
            invariant
                1 <= n <= num_lines,
                num_lines == starts.len(),
                starts == self.starting_bytes@,
                spec_line_index(starts, byte as int, num_lines as nat) == spec_line_index(
                    starts,
                    byte as int,
                    n as nat,
                ),
            decreases n,
        {
            n -= 1;
        }
        Line(n)
    }

    /// The line and column of the position `byte`, if it lies in the text
    /// or at its end.
    pub fn location(&self, byte: usize) -> (r: Option<Location>)
        requires
            self.wf(),
        ensures
            r is Some <==> byte <= self.end(),
            r is Some ==> {
                let line = spec_line_index(self.starts(), byte as int, self.starts().len());
                r->0 == (Location {
                    line: Line((line + 1) as usize),
                    column: Column((byte - self.starts()[line] + 1) as usize),
                    absolute: byte,
                })
            },
    {
        if byte <= self.end {
            let line_index = self.line_number_at_byte(byte);
            match self.line(line_index) {
                Some(line_byte) => Some(
                    Location {
                        line: line_index,
                        column: Column(byte - line_byte + 1),
                        absolute: byte,
                    },
                ),
                None => None,
            }
        } else {
            None
        }
    }
}

impl Location {
    /// The location in words: the line and the column.
    pub fn describe(&self) -> (s: String)
        ensures
            s@ == "line "@ + crate::names::spec_decimal(self.line.0 as nat) + ", col "@
                + crate::names::spec_decimal(self.column.0 as nat),
    {
        let mut s = numbered("line ", self.line.0);
        let col = numbered(", col ", self.column.0);
        s.append(col.as_str());
        assert(s@ =~= "line "@ + crate::names::spec_decimal(self.line.0 as nat) + ", col "@
            + crate::names::spec_decimal(self.column.0 as nat));
        s
    }
}

} // verus!
