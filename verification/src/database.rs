use vstd::prelude::*;
use vstd::string::*;
use crate::text::{i32_of, lemma_word_span_next, next_word, parse_i32, word};

verus! {

/// One record of the table.
pub struct Row {
    pub id: i32,
    pub dog_name: String,
    pub breed: String,
}

impl View for Row {
    type V = (i32, Seq<char>, Seq<char>);

    /// The id, the name and the breed.
    open spec fn view(&self) -> (i32, Seq<char>, Seq<char>) {
        (self.id, self.dog_name@, self.breed@)
    }
}

impl Clone for Row {
    fn clone(&self) -> (r: Self)
        ensures
            r == *self,
    {
        Row { id: self.id, dog_name: self.dog_name.clone(), breed: self.breed.clone() }
    }
}

/// The fields of the row that the statement `s` describes: its second word
/// read as the id, its third word as the name and its fourth as the breed.
/// There is none if a word is missing or the second is no `i32`.
pub open spec fn row_fields(s: Seq<char>) -> Option<(i32, Seq<char>, Seq<char>)> {
    match (word(s, 1), word(s, 2), word(s, 3)) {
        (Some(id), Some(dog_name), Some(breed)) => match i32_of(id) {
            Some(n) => Some((n, dog_name, breed)),
            None => None,
        },
        _ => None,
    }
}

impl Row {
    /// The row that the statement describes, if it describes one.
    pub fn parse(statement_str: &String) -> (r: Option<Row>)
        ensures
            match r {
                Some(row) => row_fields(statement_str@) == Some(row@),
                None => row_fields(statement_str@) is None,
            },
    {
        let s = statement_str.as_str();
        proof {
            lemma_word_span_next(s@, 0, 0);
            lemma_word_span_next(s@, 1, 0);
            lemma_word_span_next(s@, 2, 0);
        }
        let first = match next_word(s, 0) {
            Some(span) => span,
            None => { return None; },
        };
        proof {
            lemma_word_span_next(s@, 0, first.1 as int);
            lemma_word_span_next(s@, 1, first.1 as int);
        }
        let second = match next_word(s, first.1) {
            Some(span) => span,
            None => { return None; },
        };
        proof {
            lemma_word_span_next(s@, 0, second.1 as int);
        }
        let third = match next_word(s, second.1) {
            Some(span) => span,
            None => { return None; },
        };
        let fourth = match next_word(s, third.1) {
            Some(span) => span,
            None => { return None; },
        };
        match parse_i32(s.substring_char(second.0, second.1)) {
            Some(id) => Some(
                Row {
                    id,
                    dog_name: s.substring_char(third.0, third.1).to_owned(),
                    breed: s.substring_char(fourth.0, fourth.1).to_owned(),
                },
            ),
            None => None,
        }
    }

    /// The row that the statement describes.
    pub fn new(statement_str: &String) -> (row: Self)
        requires
            row_fields(statement_str@) is Some,
        ensures
            row_fields(statement_str@) == Some(row@),
    {
        Row::parse(statement_str).unwrap()
    }
}

/// The rows that were inserted, in the order of their insertion.
#[derive(Clone)]
pub struct Table {
    rows: Vec<Row>,
}

impl View for Table {
    type V = Seq<Row>;

    closed spec fn view(&self) -> Seq<Row> {
        self.rows@
    }
}

impl Table {
    /// A table without rows.
    pub fn new() -> (table: Self)
        ensures
            table@ == Seq::<Row>::empty(),
    {
        Table { rows: Vec::new() }
    }

    /// Adds a copy of `row` after the rows that are there.
    pub fn insert_row(&mut self, row: &Row)
        ensures
            final(self)@ == old(self)@.push(*row),
    {
        self.rows.push(row.clone())
    }

    /// The number of rows.
    pub fn row_count(&self) -> (n: usize)
        ensures
            n == self@.len(),
    {
        return self.rows.len();
    }

    /// Row `i`, counting from 0 in the order of insertion.
    pub fn row(&self, i: usize) -> (row: &Row)
        requires
            i < self@.len(),
        ensures
            *row == self@[i as int],
    {
        &self.rows[i]
    }
}

} // verus!
