//! Token records of column-annotated text (word, chunk, named-entity and
//! semantic-role labels) and a helper to transpose label rows into columns.

use vstd::prelude::*;
use std::str::FromStr;

verus! {

/// A position marker of the IOBES chunking scheme: inside, outside, begin,
/// end, or single.
#[derive(Clone, Copy, Debug, PartialEq, Eq, Structural)]
pub enum IOBES {
    I,
    O,
    B,
    E,
    S,
}

/// Classifies a string as an IOBES position marker: `Ok` exactly for the
/// five single-letter markers, `Err` for everything else.
pub fn iobes_of_str(s: &str) -> (r: Result<IOBES, ()>)
    ensures
        r == (if s@ == seq!['I'] {
            Ok::<IOBES, ()>(IOBES::I)
        } else if s@ == seq!['O'] {
            Ok::<IOBES, ()>(IOBES::O)
        } else if s@ == seq!['B'] {
            Ok::<IOBES, ()>(IOBES::B)
        } else if s@ == seq!['E'] {
            Ok::<IOBES, ()>(IOBES::E)
        } else if s@ == seq!['S'] {
            Ok::<IOBES, ()>(IOBES::S)
        } else {
            Err::<IOBES, ()>(())
        }),
{
    if s.unicode_len() == 1 {
        let c = s.get_char(0);
        proof {
            assert(s@ =~= seq![s@[0]]);
        }
        if c == 'I' {
            Ok(IOBES::I)
        } else if c == 'O' {
            Ok(IOBES::O)
        } else if c == 'B' {
            Ok(IOBES::B)
        } else if c == 'E' {
            Ok(IOBES::E)
        } else if c == 'S' {
            Ok(IOBES::S)
        } else {
            Err(())
        }
    } else {
        Err(())
    }
}

impl FromStr for IOBES {
    type Err = ();

    fn from_str(s: &str) -> Result<IOBES, ()> {
        iobes_of_str(s)
    }
}

/// One annotated token: the word itself, its chunk and named-entity labels,
/// and its semantic-role labels, one per predicate column.
pub struct Token {
    pub token: String,
    pub chunk: String,
    pub ner: String,
    pub srls: Vec<String>,
}

impl Token {
    /// Builds a token from the whitespace-split columns of an annotation
    /// line: the word, the chunk and named-entity labels, and the
    /// semantic-role columns from the eighth field on.
    #[verifier::loop_isolation(false)]
    pub fn new(parts: Vec<&str>) -> (t: Token)
        requires
            parts@.len() >= 7,
        ensures
            t.token@ == parts@[0]@,
            t.chunk@ == parts@[4]@,
            t.ner@ == parts@[5]@,
            t.srls@.len() == parts@.len() - 7,
            forall|i: int| 0 <= i < t.srls@.len() ==> t.srls@[i]@ == parts@[7 + i]@,
    {
        let token = parts[0].to_owned();
        let chunk = parts[4].to_owned();
        let ner = parts[5].to_owned();
        let mut srls: Vec<String> = Vec::new();
        let mut i: usize = 7;
        while i < parts.len()
            invariant
                7 <= i <= parts@.len(),
                srls@.len() == i - 7,
                forall|p: int| 0 <= p < srls@.len() ==> srls@[p]@ == parts@[7 + p]@,
            decreases parts@.len() - i,
        {
            srls.push(parts[i].to_owned());
            i += 1;
        }
        Token { token, chunk, ner, srls }
    }
}

/// Transposes rows of labels into columns: entry `(i, j)` of the result is
/// entry `(j, i)` of the input. The width is taken from the first row, so
/// every row must be at least as long as the first.
#[verifier::loop_isolation(false)]
pub fn transpose(matrix: &Vec<Vec<String>>) -> (r: Vec<Vec<String>>)
    requires
        forall|j: int|
            0 <= j < matrix@.len() ==> matrix@[0]@.len() <= (#[trigger] matrix@[j])@.len(),
    ensures
        r@.len() == (if matrix@.len() == 0 {
            0int
        } else {
            matrix@[0]@.len() as int
        }),
        forall|i: int| 0 <= i < r@.len() ==> (#[trigger] r@[i])@.len() == matrix@.len(),
        forall|i: int, j: int|
            0 <= i < r@.len() && 0 <= j < matrix@.len() ==> (#[trigger] r@[i]@[j])@
                == matrix@[j]@[i]@,
{
    let mut result: Vec<Vec<String>> = Vec::new();
    if matrix.len() == 0 {
        return result;
    }
    let row_len = matrix[0].len();
    let mut i: usize = 0;
    while i < row_len
        invariant
            i <= row_len,
            result@.len() == i,
            forall|p: int| 0 <= p < i ==> (#[trigger] result@[p])@.len() == matrix@.len(),
            forall|p: int, j: int|
                0 <= p < i && 0 <= j < matrix@.len() ==> (#[trigger] result@[p]@[j])@
                    == matrix@[j]@[p]@,
        decreases row_len - i,
    {
        let mut row: Vec<String> = Vec::new();
        let mut j: usize = 0;
        while j < matrix.len()
            invariant
                j <= matrix@.len(),
                row@.len() == j,
                i < row_len,
                forall|p: int| 0 <= p < j ==> (#[trigger] row@[p])@ == matrix@[p]@[i as int]@,
            decreases matrix@.len() - j,
        {
            let entry = matrix[j][i].clone();
            row.push(entry);
            j += 1;
        }
        result.push(row);
        i += 1;
    }
    result
}

} // verus!
