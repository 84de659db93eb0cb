use vstd::prelude::*;

verus! {

/// Address of a cell: a pair of non-negative integers, column first. The
/// coordinate is the sole key under which a cell is stored and referenced;
/// a formula names other cells only through their coordinates.
#[derive(Clone, Copy, PartialEq, Eq, Structural, Debug, Hash)]
pub struct Coord {
    pub x: u32,
    pub y: u32,
}

/// The letter form of a column number, in bijective base twenty-six:
/// column one is `A`, twenty-six is `Z`, twenty-seven is `AA`. Column zero
/// has no letter form.
pub open spec fn col_letters(x: nat) -> Seq<char>
    decreases x,
{
    if x == 0 {
        Seq::empty()
    } else {
        col_letters(((x - 1) / 26) as nat).push(

            ((((x - 1) % 26) + 65) as u8) as char,
        )
    }
}

/// The decimal digits of a row number, most significant first.
pub open spec fn row_digits(y: nat) -> Seq<char>
    decreases y,
{
    if y < 10 {
        seq![((y + 48) as u8) as char]
    } else {
        row_digits((y / 10) as nat).push((((y % 10) + 48) as u8) as char)
    }
}

/// The `A1`-style notation of a coordinate: column letters, then the row in
/// decimal.
pub open spec fn a1_notation(c: Coord) -> Seq<char> {
    col_letters(c.x as nat) + row_digits(c.y as nat)
}

/// The column number a letter sequence denotes, read as bijective base
/// twenty-six: appending a letter multiplies by twenty-six and adds the
/// letter's rank, `A` being one.
pub open spec fn letters_val(s: Seq<char>) -> int
    decreases s.len(),
{
    if s.len() == 0 {
        0
    } else {
        letters_val(s.drop_last()) * 26 + (s.last() as int - 64)
    }
}

/// The row number a digit sequence denotes, read in decimal.
pub open spec fn digits_val(s: Seq<char>) -> int
    decreases s.len(),
{
    if s.len() == 0 {
        0
    } else {
        digits_val(s.drop_last()) * 10 + (s.last() as int - 48)
    }
}

/// Every character of a column's letter form is an upper-case letter, and a
/// column of one or more has one or more of them.
proof fn lemma_col_letters_chars(x: nat)
    ensures
        forall|i: int|
            0 <= i < col_letters(x).len() ==> ('A' <= #[trigger] col_letters(x)[i]
                && col_letters(x)[i] <= 'Z'),
        x >= 1 ==> col_letters(x).len() >= 1,
    decreases x,
{
    if x == 0 {
    } else {
        let q = ((x - 1) / 26) as nat;
        lemma_col_letters_chars(q);
        assert forall|i: int|
            0 <= i < col_letters(x).len() implies ('A' <= #[trigger] col_letters(x)[i]
            && col_letters(x)[i] <= 'Z') by {
            if i < col_letters(x).len() - 1 {
                assert(col_letters(x)[i] == col_letters(q)[i]);
            } else {
                assert(col_letters(x)[i] == ((((x - 1) % 26) + 65) as u8) as char);
            }
        }
    }
}

/// Every character of a row's digit form is a decimal digit, and there is at
/// least one.
proof fn lemma_row_digits_chars(y: nat)
    ensures
        forall|i: int|
            0 <= i < row_digits(y).len() ==> ('0' <= #[trigger] row_digits(y)[i] && row_digits(
                y,
            )[i] <= '9'),
        row_digits(y).len() >= 1,
    decreases y,
{
    if y < 10 {
    } else {
        let q = (y / 10) as nat;
        lemma_row_digits_chars(q);
        assert forall|i: int|
            0 <= i < row_digits(y).len() implies ('0' <= #[trigger] row_digits(y)[i] && row_digits(
            y,
        )[i] <= '9') by {
            if i < row_digits(y).len() - 1 {
                assert(row_digits(y)[i] == row_digits(q)[i]);
            } else {
                assert(row_digits(y)[i] == (((y % 10) + 48) as u8) as char);
            }
        }
    }
}

/// Reading a column's letter form back recovers the column.
proof fn lemma_letters_val_of_col(x: nat)
    ensures
        letters_val(col_letters(x)) == x,
    decreases x,
{
    if x == 0 {
    } else {
        let q = ((x - 1) / 26) as nat;
        lemma_letters_val_of_col(q);
        assert(col_letters(x).drop_last() =~= col_letters(q));
        assert(col_letters(x).last() == ((((x - 1) % 26) + 65) as u8) as char);
        assert(letters_val(col_letters(x)) == q * 26 + ((x - 1) % 26) + 1);
        assert(q * 26 + (x - 1) % 26 == x - 1) by {
            vstd::arithmetic::div_mod::lemma_fundamental_div_mod((x - 1) as int, 26);
        }
    }
}

/// Reading a row's digit form back recovers the row.
proof fn lemma_digits_val_of_row(y: nat)
    ensures
        digits_val(row_digits(y)) == y,
    decreases y,
{
    if y < 10 {
        assert(row_digits(y) == seq![((y + 48) as u8) as char]);
        assert(row_digits(y).len() == 1);
        assert(row_digits(y).drop_last() =~= Seq::<char>::empty());
        assert(row_digits(y).last() == ((y + 48) as u8) as char);
        assert((((y + 48) as u8) as char) as int == y + 48);
        assert(digits_val(row_digits(y)) == digits_val(Seq::<char>::empty()) * 10 + (y + 48 - 48));
    } else {
        let q = (y / 10) as nat;
        lemma_digits_val_of_row(q);
        assert(row_digits(y).drop_last() =~= row_digits(q));
        assert(row_digits(y).last() == (((y % 10) + 48) as u8) as char);
        assert(digits_val(row_digits(y)) == q * 10 + (y % 10));
        assert(q * 10 + y % 10 == y) by {
            vstd::arithmetic::div_mod::lemma_fundamental_div_mod(y as int, 10);
        }
    }
}

/// The column denoted by the first `j` characters, when they are letters:
/// the exact value, or nothing when it exceeds the coordinate range.
fn letters_value(s: &Vec<char>, j: usize) -> (r: Option<u32>)
    requires
        j <= s@.len(),
        forall|q: int| 0 <= q < j ==> ('A' <= #[trigger] s@[q] && s@[q] <= 'Z'),
    ensures
        match r {
            Some(v) => v as int == letters_val(s@.subrange(0, j as int)),
            None => letters_val(s@.subrange(0, j as int)) > u32::MAX,
        },
    decreases j,
{
    if j == 0 {
        proof {
            assert(s@.subrange(0, 0) =~= Seq::<char>::empty());
        }
        Some(0)
    } else {
        proof {
            assert(s@.subrange(0, j as int).drop_last() =~= s@.subrange(0, j - 1));
            assert(s@.subrange(0, j as int).last() == s@[j - 1]);
        }
        let prev = letters_value(s, j - 1);
        let ch = s[j - 1];
        let d = (ch as u32) - 64;
        proof {
            assert(1 <= d <= 26);
        }
        match prev {
            None => {
                proof {
                    assert(letters_val(s@.subrange(0, j as int)) == letters_val(
                        s@.subrange(0, j - 1),
                    ) * 26 + d);
                }
                None
            },
            Some(v) => {
                if v > (u32::MAX - d) / 26 {
                    proof {
                        vstd::arithmetic::div_mod::lemma_fundamental_div_mod(
                            (u32::MAX - d) as int,
                            26,
                        );
                    }
                    None
                } else {
                    proof {
                        vstd::arithmetic::div_mod::lemma_fundamental_div_mod(
                            (u32::MAX - d) as int,
                            26,
                        );
                    }
                    Some(v * 26 + d)
                }
            },
        }
    }
}

/// The row denoted by the characters from `j` to `e`, when they are digits:
/// the exact value, or nothing when it exceeds the coordinate range.
fn digits_value(s: &Vec<char>, j: usize, e: usize) -> (r: Option<u32>)
    requires
        j <= e <= s@.len(),
        forall|q: int| j <= q < e ==> ('0' <= #[trigger] s@[q] && s@[q] <= '9'),
    ensures
        match r {
            Some(v) => v as int == digits_val(s@.subrange(j as int, e as int)),
            None => digits_val(s@.subrange(j as int, e as int)) > u32::MAX,
        },
    decreases e,
{
    if e == j {
        proof {
            assert(s@.subrange(j as int, j as int) =~= Seq::<char>::empty());
        }
        Some(0)
    } else {
        proof {
            assert(s@.subrange(j as int, e as int).drop_last() =~= s@.subrange(j as int, e - 1));
            assert(s@.subrange(j as int, e as int).last() == s@[e - 1]);
        }
        let prev = digits_value(s, j, e - 1);
        let ch = s[e - 1];
        let d = (ch as u32) - 48;
        proof {
            assert(0 <= d <= 9);
        }
        match prev {
            None => {
                proof {
                    assert(digits_val(s@.subrange(j as int, e as int)) == digits_val(
                        s@.subrange(j as int, e - 1),
                    ) * 10 + d);
                }
                None
            },
            Some(v) => {
                if v > (u32::MAX - d) / 10 {
                    proof {
                        vstd::arithmetic::div_mod::lemma_fundamental_div_mod(
                            (u32::MAX - d) as int,
                            10,
                        );
                    }
                    None
                } else {
                    proof {
                        vstd::arithmetic::div_mod::lemma_fundamental_div_mod(
                            (u32::MAX - d) as int,
                            10,
                        );
                    }
                    Some(v * 10 + d)
                }
            },
        }
    }
}

/// Append the letter form of column `x`.
fn push_col(x: u32, out: &mut Vec<char>)
    ensures
        final (out)@ == old(out)@ + col_letters(x as nat),
    decreases x,
{
    if x == 0 {
        proof {
            assert(out@ =~= out@ + col_letters(0));
        }
        return ;
    }
    let q = (x - 1) / 26;
    let r = ((x - 1) % 26) as u8;
    push_col(q, out);
    out.push((65 + r) as char);
    proof {
        assert(out@ =~= old(out)@ + col_letters(x as nat));
    }
}

/// Append the decimal digits of row `y`.
fn push_row(y: u32, out: &mut Vec<char>)
    ensures
        final (out)@ == old(out)@ + row_digits(y as nat),
    decreases y,
{
    if y < 10 {
        out.push((48 + (y as u8)) as char);
        proof {
            assert(out@ =~= old(out)@ + row_digits(y as nat));
        }
        return ;
    }
    push_row(y / 10, out);
    out.push((48 + ((y % 10) as u8)) as char);
    proof {
        assert(out@ =~= old(out)@ + row_digits(y as nat));
    }
}

impl Coord {
    /// Make a coordinate from a column and a row.
    pub fn new(x: u32, y: u32) -> (r: Coord)
        ensures
            r == (Coord { x, y }),
    {
        Coord { x, y }
    }

    /// The `A1`-style notation of this coordinate: letters for the column,
    /// digits for the row. Column zero has no letter form, so it has no
    /// notation.
    #[allow(non_snake_case)]
    pub fn convert_11_to_A1(self) -> (r: Option<Vec<char>>)
        ensures
            match r {
                Some(s) => self.x >= 1 && s@ == a1_notation(self),
                None => self.x == 0,
            },
    {
        if self.x == 0 {
            return None;
        }
        let mut out: Vec<char> = Vec::new();
        push_col(self.x, &mut out);
        push_row(self.y, &mut out);
        proof {
            assert(out@ =~= a1_notation(self));
        }
        Some(out)
    }

    /// The coordinate whose `A1`-style notation is exactly the given text:
    /// the one such coordinate when the text is a canonical notation, and
    /// nothing otherwise. A returned coordinate always prints back to the
    /// input, and the notation of any coordinate in range parses back to it.
    #[allow(non_snake_case)]
    pub fn convert_A1_to_11(s: &Vec<char>) -> (r: Option<Coord>)
        ensures
            match r {
                Some(c) => c.x >= 1 && s@ == a1_notation(c),
                None => forall|c: Coord| c.x >= 1 ==> s@ != a1_notation(c),
            },
            forall|c: Coord| c.x >= 1 && s@ == a1_notation(c) ==> r == Some(c),
    {
        let n = s.len();
        let mut j: usize = 0;
        let mut stop: bool = false;
        while !stop && j < n
            invariant
                n == s@.len(),
                0 <= j <= n,
                forall|q: int| 0 <= q < j ==> ('A' <= #[trigger] s@[q] && s@[q] <= 'Z'),
                stop ==> j < n && !('A' <= s@[j as int] && s@[j as int] <= 'Z'),
            decreases n - j, if stop {
                0int
            } else {
                1int
            },
        {
            let ch = s[j];
            if 'A' <= ch && ch <= 'Z' {
                j += 1;
            } else {
                stop = true;
            }
        }
        proof {
            assert forall|c: Coord| c.x >= 1 && s@ == a1_notation(c) implies j == col_letters(
                c.x as nat,
            ).len() by {
                lemma_col_letters_chars(c.x as nat);
                lemma_row_digits_chars(c.y as nat);
                let l = col_letters(c.x as nat);
                let dd = row_digits(c.y as nat);
                assert(s@.len() == l.len() + dd.len());
                if (j as int) < l.len() {
                    assert(s@[j as int] == l[j as int]);
                    assert('A' <= s@[j as int] && s@[j as int] <= 'Z');
                    assert(stop);
                    assert(false);
                }
                if (j as int) > l.len() {
                    assert(s@[l.len() as int] == dd[0]);
                    assert('0' <= s@[l.len() as int] && s@[l.len() as int] <= '9');
                    assert('A' <= s@[l.len() as int] && s@[l.len() as int] <= 'Z');
                    assert(false);
                }
            }
        }
        if j == 0 {
            proof {
                assert forall|c: Coord| c.x >= 1 && s@ == a1_notation(c) implies false by {
                    lemma_col_letters_chars(c.x as nat);
                }
            }
            return None;
        }
        if j >= n {
            proof {
                assert forall|c: Coord| c.x >= 1 && s@ == a1_notation(c) implies false by {
                    lemma_col_letters_chars(c.x as nat);
                    lemma_row_digits_chars(c.y as nat);
                    assert(s@.len() == col_letters(c.x as nat).len() + row_digits(
                        c.y as nat,
                    ).len());
                }
            }
            return None;
        }
        let mut q: usize = j;
        while q < n
            invariant
                n == s@.len(),
                0 < j <= q <= n,
                forall|qq: int| 0 <= qq < j ==> ('A' <= #[trigger] s@[qq] && s@[qq] <= 'Z'),
                forall|t: int| j <= t < q ==> ('0' <= #[trigger] s@[t] && s@[t] <= '9'),
                forall|c: Coord|
                    c.x >= 1 && s@ == a1_notation(c) ==> j == col_letters(c.x as nat).len(),
            decreases n - q,
        {
            let ch = s[q];
            if '0' <= ch && ch <= '9' {
                q += 1;
            } else {
                proof {
                    assert forall|c: Coord| c.x >= 1 && s@ == a1_notation(c) implies false by {
                        lemma_row_digits_chars(c.y as nat);
                        let l = col_letters(c.x as nat);
                        let dd = row_digits(c.y as nat);
                        assert(s@[q as int] == dd[q - l.len()]);
                        assert('0' <= s@[q as int] && s@[q as int] <= '9');
                    }
                }
                return None;
            }
        }
        let x = match letters_value(s, j) {
            Some(v) => v,
            None => {
                proof {
                    assert forall|c: Coord| c.x >= 1 && s@ == a1_notation(c) implies false by {
                        lemma_letters_val_of_col(c.x as nat);
                        assert(s@.subrange(0, j as int) =~= col_letters(c.x as nat));
                    }
                }
                return None;
            },
        };
        let y = match digits_value(s, j, n) {
            Some(v) => v,
            None => {
                proof {
                    assert forall|c: Coord| c.x >= 1 && s@ == a1_notation(c) implies false by {
                        lemma_digits_val_of_row(c.y as nat);
                        assert(s@.subrange(j as int, n as int) =~= row_digits(c.y as nat));
                    }
                }
                return None;
            },
        };
        let cand = Coord { x, y };
        proof {
            assert forall|c: Coord| c.x >= 1 && s@ == a1_notation(c) implies cand == c by {
                lemma_letters_val_of_col(c.x as nat);
                lemma_digits_val_of_row(c.y as nat);
                assert(s@.subrange(0, j as int) =~= col_letters(c.x as nat));
                assert(s@.subrange(j as int, n as int) =~= row_digits(c.y as nat));
                assert(x as int == c.x as int);
                assert(y as int == c.y as int);
            }
        }
        match cand.convert_11_to_A1() {
            Some(printed) => {
                if printed.len() != s.len() {
                    proof {
                        assert forall|c: Coord| c.x >= 1 && s@ == a1_notation(c) implies false by {
                            assert(cand == c);
                            assert(printed@ == a1_notation(cand));
                        }
                    }
                    return None;
                }
                let m = s.len();
                let mut jj: usize = 0;
                while jj < m
                    invariant
                        m == s@.len(),
                        m == printed@.len(),
                        0 <= jj <= m,
                        forall|t: int| 0 <= t < jj ==> s@[t] == printed@[t],
                        cand.x >= 1 && printed@ == a1_notation(cand),
                        forall|c: Coord| c.x >= 1 && s@ == a1_notation(c) ==> cand == c,
                    decreases m - jj,
                {
                    if s[jj] != printed[jj] {
                        proof {
                            assert forall|c: Coord|
                                c.x >= 1 && s@ == a1_notation(c) implies false by {
                                assert(cand == c);
                                assert(printed@ == s@);
                            }
                        }
                        return None;
                    }
                    jj += 1;
                }
                proof {
                    assert(s@ =~= printed@);
                }
                Some(cand)
            },
            None => {
                proof {
                    assert forall|c: Coord| c.x >= 1 && s@ == a1_notation(c) implies false by {
                        assert(cand == c);
                    }
                }
                None
            },
        }
    }
}

} // verus!
