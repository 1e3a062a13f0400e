//! The matrix as text, for reading.
//!
//! The first line holds the query, a letter to a column. Every further line
//! is a row: the letter of the reference that the row stands for, then the
//! costs, each at least two columns wide. An entry that was not computed is
//! left blank.

use crate::align::DPMatrix;
use vstd::prelude::*;

verus! {

/// A space.
pub const SPACE: u8 = 32;

/// The end of a line.
pub const NEWLINE: u8 = 10;

/// The decimal digits of `n`.
pub open spec fn decimal(n: nat) -> Seq<u8>
    decreases n,
{
    if n < 10 {
        seq![(48 + n) as u8]
    } else {
        decimal(n / 10).push((48 + n % 10) as u8)
    }
}

/// The character with the code `byte`, in UTF-8.
pub open spec fn letter(byte: u8) -> Seq<u8> {
    if byte < 128 {
        seq![byte]
    } else {
        seq![(192 + byte / 64) as u8, (128 + byte % 64) as u8]
    }
}

/// A letter on the right of two columns.
pub open spec fn letter_cell(byte: u8) -> Seq<u8> {
    seq![SPACE] + letter(byte)
}

/// A cost on the right of two columns, or over more where it has more
/// digits; two blanks where there is none.
pub open spec fn cost_cell(entry: Option<nat>) -> Seq<u8> {
    match entry {
        None => seq![SPACE, SPACE],
        Some(cost) => if cost < 10 {
            seq![SPACE] + decimal(cost)
        } else {
            decimal(cost)
        },
    }
}

/// The items in a row, `separator` between each two.
pub open spec fn joined(items: Seq<Seq<u8>>, separator: u8) -> Seq<u8>
    decreases items.len(),
{
    if items.len() == 0 {
        Seq::empty()
    } else if items.len() == 1 {
        items[0]
    } else {
        joined(items.drop_last(), separator).push(separator) + items.last()
    }
}

/// The line of the query.
pub open spec fn header_line(query: Seq<u8>) -> Seq<u8> {
    seq![SPACE, SPACE, SPACE, SPACE, SPACE] + joined(
        Seq::new(query.len(), |j: int| letter_cell(query[j])),
        SPACE,
    )
}

/// The line of a row that stands for the letter `lead`.
pub open spec fn row_line(lead: u8, row: Seq<Option<nat>>) -> Seq<u8> {
    letter(lead).push(SPACE) + joined(Seq::new(row.len(), |j: int| cost_cell(row[j])), SPACE)
}

/// The letter that row `i` stands for: a blank for the first row, which
/// stands for no letter.
pub open spec fn lead(reference: Seq<u8>, i: int) -> u8 {
    if i == 0 {
        SPACE
    } else {
        reference[i - 1]
    }
}

impl DPMatrix {
    /// The number of rows that are written: those that stand for the empty
    /// prefix or for a letter of the reference.
    pub open spec fn written_rows(&self) -> nat {
        if self.costs().len() <= self.reference().len() + 1 {
            self.costs().len()
        } else {
            self.reference().len() + 1
        }
    }

    /// The lines of the text.
    pub open spec fn lines(&self) -> Seq<Seq<u8>> {
        Seq::new(
            self.written_rows() + 1,
            |l: int|
                if l == 0 {
                    header_line(self.query())
                } else {
                    row_line(lead(self.reference(), l - 1), self.costs()[l - 1])
                },
        )
    }

    /// The matrix as text.
    pub open spec fn text(&self) -> Seq<u8> {
        joined(self.lines(), NEWLINE)
    }

    /// The matrix as text, in UTF-8.
    pub fn to_text(&self) -> (text: Vec<u8>)
        ensures
            text@ == self.text(),
    {
        let mut out: Vec<u8> = Vec::new();
        out.push(SPACE);
        out.push(SPACE);
        out.push(SPACE);
        out.push(SPACE);
        out.push(SPACE);
        let query = self.query_bytes();
        let ghost letters = Seq::new(query@.len(), |j: int| letter_cell(query@[j]));
        let mut j: usize = 0;
        while j < query.len()
            invariant
                j <= query.len(),
                letters == Seq::new(query@.len(), |j: int| letter_cell(query@[j])),
                out@ == seq![SPACE, SPACE, SPACE, SPACE, SPACE] + joined(
                    letters.take(j as int),
                    SPACE,
                ),
            decreases query.len() - j,
        {
            let ghost before = out@;
            if j > 0 {
                out.push(SPACE);
            }
            out.push(SPACE);
            push_letter(&mut out, query[j]);
            j += 1;
            proof {
                lemma_joined_next(letters, SPACE, j as int);
                assert(out@ =~= seq![SPACE, SPACE, SPACE, SPACE, SPACE] + joined(
                    letters.take(j as int),
                    SPACE,
                ));
            }
        }
        let reference = self.reference_bytes();
        let rows = if self.height() <= reference.len() {
            self.height()
        } else {
            reference.len() + 1
        };
        let ghost lines = self.lines();
        assert(letters.take(query@.len() as int) =~= letters);
        assert(lines.take(1) =~= seq![lines[0]]);
        let mut i: usize = 0;
        while i < rows
            invariant
                i <= rows,
                rows == self.written_rows(),
                rows <= reference.len() + 1,
                rows <= self.costs().len(),
                reference@ == self.reference(),
                lines == self.lines(),
                out@ == joined(lines.take(i + 1), NEWLINE),
            decreases rows - i,
        {
            out.push(NEWLINE);
            let lead_byte = if i == 0 {
                SPACE
            } else {
                reference[i - 1]
            };
            push_letter(&mut out, lead_byte);
            out.push(SPACE);
            let ghost start = out@;
            let ghost row = self.costs()[i as int];
            let ghost cells = Seq::new(row.len(), |j: int| cost_cell(row[j]));
            let width = self.width(i);
            let mut j: usize = 0;
            while j < width
                invariant
                    j <= width,
                    i < self.costs().len(),
                    width == row.len(),
                    row == self.costs()[i as int],
                    cells == Seq::new(row.len(), |j: int| cost_cell(row[j])),
                    out@ == start + joined(cells.take(j as int), SPACE),
                decreases width - j,
            {
                if j > 0 {
                    out.push(SPACE);
                }
                match self.entry(i, j) {
                    None => {
                        out.push(SPACE);
                        out.push(SPACE);
                    },
                    Some(cost) => {
                        if cost < 10 {
                            out.push(SPACE);
                        }
                        push_decimal(&mut out, cost);
                    },
                }
                j += 1;
                proof {
                    lemma_joined_next(cells, SPACE, j as int);
                    assert(out@ =~= start + joined(cells.take(j as int), SPACE));
                }
            }
            i += 1;
            proof {
                assert(cells.take(width as int) =~= cells);
                lemma_joined_next(lines, NEWLINE, i + 1);
                assert(lines[i as int] == row_line(lead_byte, row));
                assert(out@ =~= joined(lines.take(i + 1), NEWLINE));
            }
        }
        assert(lines.take(rows + 1) =~= lines);
        out
    }
}

/// Joining one item more appends it, after the separator unless it is the
/// first.
proof fn lemma_joined_next(items: Seq<Seq<u8>>, separator: u8, count: int)
    requires
        1 <= count <= items.len(),
    ensures
        joined(items.take(count), separator) == if count == 1 {
            items[0]
        } else {
            joined(items.take(count - 1), separator).push(separator) + items[count - 1]
        },
        joined(items.take(0), separator) == Seq::<u8>::empty(),
{
    let taken = items.take(count);
    assert(taken.drop_last() =~= items.take(count - 1));
    assert(items.take(0) =~= Seq::<Seq<u8>>::empty());
}

/// Appends the character with the code `byte`.
fn push_letter(out: &mut Vec<u8>, byte: u8)
    ensures
        final(out)@ == old(out)@ + letter(byte),
{
    if byte < 128 {
        out.push(byte);
    } else {
        out.push(192 + byte / 64);
        out.push(128 + byte % 64);
    }
    assert(out@ =~= old(out)@ + letter(byte));
}

/// Appends the decimal digits of `n`.
fn push_decimal(out: &mut Vec<u8>, n: usize)
    ensures
        final(out)@ == old(out)@ + decimal(n as nat),
    decreases n,
{
    if n >= 10 {
        push_decimal(out, n / 10);
    }
    out.push((48 + n % 10) as u8);
    assert(out@ =~= old(out)@ + decimal(n as nat));
}

} // verus!
