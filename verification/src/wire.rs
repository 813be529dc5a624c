//! The shapes in which a structured source holds the values of one key, and
//! the two conventions for reading and writing them.

use crate::text::{join, spec_join, spec_split, split, texts};
use vstd::prelude::*;

verus! {

/// The values of one key as a structured source holds them: a single scalar,
/// or a list.
#[derive(Debug, PartialEq, Eq)]
pub enum OneOrMany {
    /// A single scalar.
    One(String),
    /// A list of values.
    Many(Vec<String>),
}

/// A shape as plain values.
pub ghost enum Shape {
    /// A single scalar, as its text.
    One(Seq<char>),
    /// A list of values, as their texts.
    Many(Seq<Seq<char>>),
}

/// What a scalar stands for.
#[derive(Debug, Clone, Copy, PartialEq, Eq)]
pub enum Convention {
    /// A scalar is one value. Values are written as lists.
    Plain,
    /// A scalar holds the values of its key with commas between them. Values
    /// are written as such scalars.
    CommaSeparated,
}

impl View for OneOrMany {
    type V = Shape;

    open spec fn view(&self) -> Shape {
        match *self {
            OneOrMany::One(text) => Shape::One(text@),
            OneOrMany::Many(list) => Shape::Many(texts(list@)),
        }
    }
}

/// The list of values that a shape stands for: a list as it is; a scalar as
/// its one value, or, where scalars are comma separated, as its pieces.
pub open spec fn values_of(shape: Shape, convention: Convention) -> Seq<Seq<char>> {
    match shape {
        Shape::One(text) => match convention {
            Convention::Plain => seq![text],
            Convention::CommaSeparated => spec_split(text, ','),
        },
        Shape::Many(list) => list,
    }
}

/// The shape in which a list of values is written: the list itself, or, where
/// scalars are comma separated, the values joined with commas.
pub open spec fn shape_of(values: Seq<Seq<char>>, convention: Convention) -> Shape {
    match convention {
        Convention::Plain => Shape::Many(values),
        Convention::CommaSeparated => Shape::One(spec_join(values, seq![','])),
    }
}

impl OneOrMany {
    /// The list of values that this shape stands for.
    pub fn into_values(self, convention: Convention) -> (values: Vec<String>)
        ensures
            texts(values@) == values_of(self@, convention),
    {
        match self {
            OneOrMany::One(text) => match convention {
                Convention::Plain => {
                    let mut values = Vec::new();
                    values.push(text);
                    assert(texts(values@) =~= seq![text@]);
                    values
                },
                Convention::CommaSeparated => split(text.as_str(), ','),
            },
            OneOrMany::Many(list) => list,
        }
    }

    /// The shape in which `values` is written.
    pub fn from_values(values: &Vec<String>, convention: Convention) -> (shape: Self)
        ensures
            shape@ == shape_of(texts(values@), convention),
    {
        match convention {
            Convention::Plain => {
                let mut list: Vec<String> = Vec::with_capacity(values.len());
                let mut at: usize = 0;
                while at < values.len()
                    invariant
                        at <= values.len(),
                        texts(list@) == texts(values@).take(at as int),
                    decreases values.len() - at,
                {
                    let ghost before = texts(list@);
                    let value = values[at].clone();
                    list.push(value);
                    at = at + 1;
                    assert(texts(list@) =~= before.push(value@));
                    assert(texts(list@) =~= texts(values@).take(at as int));
                }
                assert(texts(values@).take(at as int) =~= texts(values@));
                OneOrMany::Many(list)
            },
            Convention::CommaSeparated => {
                proof {
                    reveal_strlit(",");
                    assert(","@ =~= seq![',']);
                }
                OneOrMany::One(join(values, ","))
            },
        }
    }
}

} // verus!
