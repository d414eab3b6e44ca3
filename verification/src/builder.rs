//! The settings from which a board is built.

use vstd::prelude::*;

verus! {

/// What a board is to be built from, with every default filled in.
#[derive(Debug, Clone, PartialEq, Eq)]
pub struct BuildPlan {
    pub width: usize,
    pub length: usize,
    pub target_score: isize,
    pub dictionary_path: String,
}

/// The boggle board builder struct.
pub struct BoggleBuilder {
    width: Option<usize>,
    length: Option<usize>,
    target_score: Option<isize>,
    dictionary_path: Option<String>,
}

impl Default for BoggleBuilder {
    fn default() -> (builder: Self)
        ensures
            builder.width().is_none(),
            builder.length().is_none(),
            builder.target_score().is_none(),
            builder.dictionary_path().is_none(),
    {
        BoggleBuilder { width: None, length: None, target_score: None, dictionary_path: None }
    }
}

impl BoggleBuilder {
    /// The width asked for, if any.
    pub closed spec fn width(&self) -> Option<usize> {
        self.width
    }

    /// The length asked for, if any.
    pub closed spec fn length(&self) -> Option<usize> {
        self.length
    }

    /// The target score asked for, if any.
    pub closed spec fn target_score(&self) -> Option<isize> {
        self.target_score
    }

    /// The path of the dictionary file, if one was given.
    pub closed spec fn dictionary_path(&self) -> Option<Seq<char>> {
        match self.dictionary_path {
            Some(path) => Some(path@),
            None => None,
        }
    }

    /// A builder with nothing set.
    pub fn new() -> (builder: Self)
        ensures
            builder.width().is_none(),
            builder.length().is_none(),
            builder.target_score().is_none(),
            builder.dictionary_path().is_none(),
    {
        BoggleBuilder { width: None, length: None, target_score: None, dictionary_path: None }
    }

    /// Sets the path of the text file that holds the dictionary.
    pub fn with_dictionary_path(self, path: &str) -> (builder: Self)
        ensures
            builder.dictionary_path() == Some(path@),
            builder.width() == self.width(),
            builder.length() == self.length(),
            builder.target_score() == self.target_score(),
    {
        BoggleBuilder {
            width: self.width,
            length: self.length,
            target_score: self.target_score,
            dictionary_path: Some(path.to_owned()),
        }
    }

    /// Sets the score that the board is to reach.
    pub fn with_target_score(self, score: isize) -> (builder: Self)
        ensures
            builder.target_score() == Some(score),
            builder.width() == self.width(),
            builder.length() == self.length(),
            builder.dictionary_path() == self.dictionary_path(),
    {
        BoggleBuilder {
            width: self.width,
            length: self.length,
            target_score: Some(score),
            dictionary_path: self.dictionary_path,
        }
    }

    /// Sets the board's width.
    pub fn with_width(self, width: usize) -> (builder: Self)
        ensures
            builder.width() == Some(width),
            builder.length() == self.length(),
            builder.target_score() == self.target_score(),
            builder.dictionary_path() == self.dictionary_path(),
    {
        BoggleBuilder {
            width: Some(width),
            length: self.length,
            target_score: self.target_score,
            dictionary_path: self.dictionary_path,
        }
    }

    /// Sets the board's length.
    pub fn with_length(self, length: usize) -> (builder: Self)
        ensures
            builder.length() == Some(length),
            builder.width() == self.width(),
            builder.target_score() == self.target_score(),
            builder.dictionary_path() == self.dictionary_path(),
    {
        BoggleBuilder {
            width: self.width,
            length: Some(length),
            target_score: self.target_score,
            dictionary_path: self.dictionary_path,
        }
    }

    /// What to build: nothing without a dictionary; with one, a board of the
    /// width and length asked for, 4 by default, that reaches the target
    /// score asked for, 0 by default.
    pub fn plan(self) -> (plan: Option<BuildPlan>)
        ensures
            match plan {
                Some(plan) => {
                    &&& self.dictionary_path() == Some(plan.dictionary_path@)
                    &&& plan.width == match self.width() {
                        Some(width) => width,
                        None => 4,
                    }
                    &&& plan.length == match self.length() {
                        Some(length) => length,
                        None => 4,
                    }
                    &&& plan.target_score == match self.target_score() {
                        Some(score) => score,
                        None => 0,
                    }
                },
                None => self.dictionary_path().is_none(),
            },
    {
        let width: usize = match self.width {
            Some(w) => w,
            None => 4,
        };
        let length: usize = match self.length {
            Some(l) => l,
            None => 4,
        };
        let target_score: isize = match self.target_score {
            Some(score) => score,
            None => 0,
        };
        match self.dictionary_path {
            Some(path) => Some(BuildPlan { width, length, target_score, dictionary_path: path }),
            None => None,
        }
    }
}

} // verus!
