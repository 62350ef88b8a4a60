use vstd::prelude::*;
use itertools::Itertools;
use crate::a_star::grid::GridMap;

verus! {

/// The sign for the digit `d`.
pub open spec fn digit(d: nat) -> char {
    if d == 0 {
        '0'
    } else if d == 1 {
        '1'
    } else if d == 2 {
        '2'
    } else if d == 3 {
        '3'
    } else if d == 4 {
        '4'
    } else if d == 5 {
        '5'
    } else if d == 6 {
        '6'
    } else if d == 7 {
        '7'
    } else if d == 8 {
        '8'
    } else {
        '9'
    }
}

/// `n` written in decimal.
pub open spec fn decimal(n: nat) -> Seq<char>
    decreases n,
{
    if n < 10 {
        seq![digit(n)]
    } else {
        decimal(n / 10).push(digit(n % 10))
    }
}

/// `count` blanks.
pub open spec fn blanks(count: nat) -> Seq<char> {
    Seq::new(count, |i: int| ' ')
}

/// `count` strokes of a ruler.
pub open spec fn strokes(count: nat) -> Seq<char> {
    Seq::new(count, |i: int| '┈')
}

/// The texts of `parts`, one after the other, with `sep` between them.
pub open spec fn joined(parts: Seq<Seq<char>>, sep: Seq<char>) -> Seq<char>
    decreases parts.len(),
{
    if parts.len() == 0 {
        Seq::empty()
    } else if parts.len() == 1 {
        parts[0]
    } else {
        joined(parts.drop_last(), sep) + sep + parts.last()
    }
}

/// What the strings of `items` hold.
pub open spec fn texts(items: Seq<String>) -> Seq<Seq<char>> {
    Seq::new(items.len(), |i: int| items[i]@)
}

/// `Itertools::format` gives the items of an iterator a form in which they
/// are written one after the other, the first as it is and each further
/// one behind `sep`; `to_string` writes that form into a string.
#[verifier::external_body]
fn join(items: &Vec<String>, sep: &str) -> (text: String)
    ensures
        text@ == joined(texts(items@), sep@),
{
    items.iter().format(sep).to_string()
}

/// A larger number has no fewer digits.
pub proof fn lemma_decimal_grows(n: nat, m: nat)
    requires
        n <= m,
    ensures
        1 <= decimal(n).len() <= decimal(m).len(),
    decreases m,
{
    if m >= 10 {
        if n >= 10 {
            lemma_decimal_grows(n / 10, m / 10);
        } else {
            lemma_decimal_grows(0, m / 10);
        }
    }
}

/// The digit `d` as a string.
fn digit_str(d: usize) -> (s: &'static str)
    requires
        d < 10,
    ensures
        s@ == seq![digit(d as nat)],
{
    proof {
        reveal_strlit("0");
        reveal_strlit("1");
        reveal_strlit("2");
        reveal_strlit("3");
        reveal_strlit("4");
        reveal_strlit("5");
        reveal_strlit("6");
        reveal_strlit("7");
        reveal_strlit("8");
        reveal_strlit("9");
    }
    let s = if d == 0 {
        "0"
    } else if d == 1 {
        "1"
    } else if d == 2 {
        "2"
    } else if d == 3 {
        "3"
    } else if d == 4 {
        "4"
    } else if d == 5 {
        "5"
    } else if d == 6 {
        "6"
    } else if d == 7 {
        "7"
    } else if d == 8 {
        "8"
    } else {
        "9"
    };
    assert(s@ =~= seq![digit(d as nat)]);
    s
}

/// Writes `n` in decimal behind what `out` holds.
pub fn write_decimal(out: &mut String, n: usize)
    ensures
        final(out)@ == old(out)@ + decimal(n as nat),
    decreases n,
{
    if n < 10 {
        out.append(digit_str(n));
    } else {
        write_decimal(out, n / 10);
        out.append(digit_str(n % 10));
        assert(out@ =~= old(out)@ + decimal(n as nat));
    }
}

/// How many digits `n` has in decimal.
pub fn decimal_len(n: usize) -> (len: usize)
    ensures
        len == decimal(n as nat).len(),
        1 <= len <= 20,
    decreases n,
{
    if n < 10 {
        1
    } else {
        let len = decimal_len(n / 10);
        proof {
            lemma_decimal_grows((n / 10) as nat, (u64::MAX / 10) as nat);
            reveal_with_fuel(decimal, 20);
            assert(decimal((u64::MAX / 10) as nat).len() == 19);
        }
        len + 1
    }
}

/// Writes `count` blanks behind what `out` holds.
pub fn write_blanks(out: &mut String, count: usize)
    ensures
        final(out)@ == old(out)@ + blanks(count as nat),
{
    let mut k: usize = 0;
    proof {
        reveal_strlit(" ");
        assert(out@ =~= old(out)@ + blanks(0));
    }
    while k < count
        invariant
            k <= count,
            out@ == old(out)@ + blanks(k as nat),
            " "@ == seq![' '],
        decreases count - k,
    {
        out.append(" ");
        k += 1;
        assert(out@ =~= old(out)@ + blanks(k as nat));
    }
}

/// Writes `count` strokes behind what `out` holds.
pub fn write_strokes(out: &mut String, count: usize)
    ensures
        final(out)@ == old(out)@ + strokes(count as nat),
{
    let mut k: usize = 0;
    proof {
        reveal_strlit("┈");
        assert(out@ =~= old(out)@ + strokes(0));
    }
    while k < count
        invariant
            k <= count,
            out@ == old(out)@ + strokes(k as nat),
            "┈"@ == seq!['┈'],
        decreases count - k,
    {
        out.append("┈");
        k += 1;
        assert(out@ =~= old(out)@ + strokes(k as nat));
    }
}

impl GridMap {
    /// How many digits the number of columns has: the width that the
    /// picture gives to each column.
    pub open spec fn column_space(self) -> nat {
        decimal(self.columns()).len()
    }

    /// How many digits the number of rows has.
    pub open spec fn row_space(self) -> nat {
        decimal(self.lines()).len()
    }

    /// The number of column `n`, filled up with blanks to one more than
    /// the column width.
    pub open spec fn column_label(self, n: int) -> Seq<char> {
        decimal(n as nat) + blanks((self.column_space() - decimal(n as nat).len() + 1) as nat)
    }

    /// The numbers of the first `upto` columns.
    pub open spec fn column_labels(self, upto: int) -> Seq<Seq<char>> {
        Seq::new(upto as nat, |n: int| self.column_label(n))
    }

    /// The pieces of the ruler over the first `upto` columns: strokes as
    /// wide as a column.
    pub open spec fn ruler_pieces(self, upto: int) -> Seq<Seq<char>> {
        Seq::new(upto as nat, |n: int| strokes(self.column_space()))
    }

    /// The signs of the first `upto` cells of row `row`, with blanks behind
    /// each but the last cell of the row.
    pub open spec fn row_signs(self, row: int, upto: int) -> Seq<char>
        decreases upto,
    {
        if upto <= 0 {
            Seq::empty()
        } else {
            self.row_signs(row, upto - 1) + self.sign((row as i32, (upto - 1) as i32)) + (if upto
                != self.columns() {
                blanks(self.column_space() + 1)
            } else {
                blanks(0)
            })
        }
    }

    /// The line for row `row`: its number, filled up with blanks to one
    /// more than the width of the row numbers, a bar, and its signs.
    pub open spec fn row_line(self, row: int) -> Seq<char> {
        decimal(row as nat) + blanks((self.row_space() - decimal(row as nat).len() + 1) as nat)
            + seq!['|', ' '] + self.row_signs(row, self.columns() as int)
    }

    /// The lines for the first `upto` rows, each on a line of its own.
    pub open spec fn row_lines(self, upto: int) -> Seq<char>
        decreases upto,
    {
        if upto <= 0 {
            Seq::empty()
        } else {
            self.row_lines(upto - 1) + (if upto - 1 > 0 {
                seq!['\n']
            } else {
                Seq::empty()
            }) + self.row_line(upto - 1)
        }
    }

    /// The picture of the grid: the column numbers with a blank between
    /// them, under them a ruler with gaps as wide as a column, and a line
    /// for each row.
    pub open spec fn picture_text(self) -> Seq<char> {
        blanks(self.row_space() + 3) + joined(self.column_labels(self.columns() as int), blanks(1))
            + seq!['\n'] + blanks(self.row_space() + 2) + joined(
            self.ruler_pieces(self.columns() as int),
            blanks(self.column_space()),
        ) + seq!['\n'] + self.row_lines(self.lines() as int)
    }

    /// Draws the picture of the grid.
    pub fn picture(&self) -> (out: String)
        requires
            self.wf(),
        ensures
            out@ == self.picture_text(),
    {
        let width: usize = self.width();
        let height: usize = self.height();
        let horizontal_space: usize = decimal_len(width);
        let vertical_space: usize = decimal_len(height);
        let mut out = String::new();
        proof {
            reveal_strlit("\n");
            reveal_strlit("| ");
            reveal_strlit(" ");
            assert("| "@ =~= seq!['|', ' ']);
            assert("\n"@ =~= seq!['\n']);
        }
        let ghost newline = seq!['\n'];
        write_blanks(&mut out, vertical_space + 3);
        let mut labels: Vec<String> = Vec::new();
        let mut n: usize = 0;
        while n < width
            invariant
                width == self.columns(),
                horizontal_space == self.column_space(),
                n <= width,
                labels@.len() == n,
                texts(labels@) =~= self.column_labels(n as int),
            decreases width - n,
        {
            proof {
                lemma_decimal_grows(n as nat, width as nat);
            }
            let ghost before = labels@;
            let mut label = String::new();
            write_decimal(&mut label, n);
            write_blanks(&mut label, horizontal_space - decimal_len(n) + 1);
            proof {
                assert(label@ =~= self.column_label(n as int));
            }
            labels.push(label);
            n += 1;
            proof {
                assert forall|i: int| 0 <= i < n implies #[trigger] texts(labels@)[i]
                    == self.column_labels(n as int)[i] by {
                    if i < n - 1 {
                        assert(texts(before)[i] == self.column_labels(n - 1)[i]);
                        assert(labels@[i] == before[i]);
                    } else {
                        assert(labels@[i] == label);
                    }
                }
            }
        }
        out.append(join(&labels, " ").as_str());
        out.append("\n");
        write_blanks(&mut out, vertical_space + 2);
        let mut gap = String::new();
        write_blanks(&mut gap, horizontal_space);
        let mut pieces: Vec<String> = Vec::new();
        let mut n: usize = 0;
        while n < width
            invariant
                width == self.columns(),
                horizontal_space == self.column_space(),
                n <= width,
                pieces@.len() == n,
                texts(pieces@) =~= self.ruler_pieces(n as int),
            decreases width - n,
        {
            let ghost before = pieces@;
            let mut piece = String::new();
            write_strokes(&mut piece, horizontal_space);
            proof {
                assert(piece@ =~= strokes(self.column_space()));
            }
            pieces.push(piece);
            n += 1;
            proof {
                assert forall|i: int| 0 <= i < n implies #[trigger] texts(pieces@)[i]
                    == self.ruler_pieces(n as int)[i] by {
                    if i < n - 1 {
                        assert(texts(before)[i] == self.ruler_pieces(n - 1)[i]);
                        assert(pieces@[i] == before[i]);
                    } else {
                        assert(pieces@[i] == piece);
                    }
                }
            }
        }
        out.append(join(&pieces, gap.as_str()).as_str());
        out.append("\n");
        let ghost head = out@;
        let mut i: usize = 0;
        proof {
            assert(out@ =~= head + self.row_lines(0));
            assert(" "@ =~= blanks(1));
            assert(head =~= blanks(self.row_space() + 3) + joined(
                self.column_labels(self.columns() as int),
                blanks(1),
            ) + newline + blanks(self.row_space() + 2) + joined(
                self.ruler_pieces(self.columns() as int),
                blanks(self.column_space()),
            ) + newline);
        }
        while i < height
            invariant
                self.wf(),
                width == self.columns(),
                height == self.lines(),
                horizontal_space == self.column_space(),
                horizontal_space <= 20,
                vertical_space == self.row_space(),
                i <= height,
                out@ == head + self.row_lines(i as int),
                "\n"@ == seq!['\n'],
                "| "@ == seq!['|', ' '],
            decreases height - i,
        {
            proof {
                lemma_decimal_grows(i as nat, height as nat);
            }
            let ghost before = out@;
            if i != 0 {
                out.append("\n");
            }
            let ghost start = out@;
            write_decimal(&mut out, i);
            write_blanks(&mut out, vertical_space - decimal_len(i) + 1);
            out.append("| ");
            let ghost front = out@;
            let mut j: usize = 0;
            proof {
                assert(out@ =~= front + self.row_signs(i as int, 0));
            }
            while j < width
                invariant
                    self.wf(),
                    width == self.columns(),
                    height == self.lines(),
                    horizontal_space == self.column_space(),
                    horizontal_space <= 20,
                    i < height,
                    j <= width,
                    out@ == front + self.row_signs(i as int, j as int),
                decreases width - j,
            {
                let ghost so_far = out@;
                out.append(self.glyph(i, j));
                if j != width - 1 {
                    write_blanks(&mut out, horizontal_space + 1);
                }
                j += 1;
                proof {
                    assert(out@ =~= front + self.row_signs(i as int, j as int)) by {
                        assert(so_far + self.sign((i as i32, (j - 1) as i32)) + blanks(0)
                            =~= so_far + self.sign((i as i32, (j - 1) as i32)));
                    }
                }
            }
            i += 1;
            proof {
                assert(out@ =~= start + self.row_line(i - 1));
                assert(out@ =~= head + self.row_lines(i as int)) by {
                    assert(before + Seq::<char>::empty() =~= before);
                }
            }
        }
        out
    }
}

} // verus!
