//! The immutable run configuration and its consistency checks.
//!
//! Path resolution (canonicalization, symlink checks, existence) is the
//! caller's concern; here a path is only a sequence of characters, and the
//! checks are the pure consistency rules: distinct input and output paths,
//! a sensible length range, and at least one requested operation.

use vstd::prelude::*;
use crate::error::Error;
use crate::text::entries_equal;

verus! {

/// The recognized options of one run.
#[derive(Debug, Clone)]
pub struct Params {
    /// The input path; `None` reads standard input.
    pub input: Option<Vec<char>>,
    /// The output path; `None` writes standard output.
    pub output: Option<Vec<char>>,
    /// Append to the output file instead of truncating it.
    pub append_output: bool,
    /// Reject paths that contain symlink components.
    pub no_follow_symlinks: bool,
    /// Streaming mode: read, transform and flush one entry at a time.
    pub pipe: bool,
    /// Sort the wordlist bytewise.
    pub sort: bool,
    /// Remove duplicate entries.
    pub unique: bool,
    /// Reverse each entry grapheme cluster by grapheme cluster.
    pub reverse: bool,
    /// Discard entries shorter than this many bytes.
    pub min_len: Option<usize>,
    /// Discard entries longer than this many bytes.
    pub max_len: Option<usize>,
}

impl Params {
    /// The lower length bound, defaulting to zero.
    pub open spec fn min_len_or_default(&self) -> int {
        match self.min_len {
            Some(m) => m as int,
            None => 0,
        }
    }

    /// The upper length bound, defaulting to the largest length.
    pub open spec fn max_len_or_default(&self) -> int {
        match self.max_len {
            Some(m) => m as int,
            None => usize::MAX as int,
        }
    }

    /// True when both paths are files and they are equal.
    pub open spec fn same_paths(&self) -> bool {
        match (self.input, self.output) {
            (Some(i), Some(o)) => i@ == o@,
            _ => false,
        }
    }

    /// The first inconsistency of the length range, if any.
    pub open spec fn length_range_error(&self) -> Option<Error> {
        match (self.min_len, self.max_len) {
            (Some(min), Some(max)) => if max < min {
                Some(Error::MaxBelowMin)
            } else if min == usize::MAX {
                Some(Error::MinLenNoOp)
            } else if max == 0 {
                Some(Error::MaxLenNoOp)
            } else {
                None
            },
            (Some(min), None) => if min == usize::MAX {
                Some(Error::MinLenNoOp)
            } else {
                None
            },
            (None, Some(max)) => if max == 0 {
                Some(Error::MaxLenNoOp)
            } else {
                None
            },
            (None, None) => None,
        }
    }

    /// The first inconsistency of the requested operations, if any.
    pub open spec fn operations_error(&self) -> Option<Error> {
        if !self.sort && !self.unique && !self.reverse && self.min_len is None && self.max_len
            is None {
            Some(Error::NoOperation)
        } else if self.output is None && self.append_output {
            Some(Error::AppendWithoutOutput)
        } else if self.pipe && self.sort {
            Some(Error::PipeWithSort)
        } else {
            None
        }
    }

    /// The first inconsistency of the whole configuration, if any, in the
    /// order the checks run: paths, then length range, then operations.
    pub open spec fn validation_error(&self) -> Option<Error> {
        if self.same_paths() {
            Some(Error::SamePaths)
        } else if self.length_range_error() is Some {
            self.length_range_error()
        } else {
            self.operations_error()
        }
    }

    /// A consistent configuration.
    pub open spec fn valid(&self) -> bool {
        self.validation_error() is None
    }

    /// Checks the options to ensure they are consistent, and hands the
    /// configuration back untouched if they are.
    pub fn validate(self) -> (r: Result<Params, Error>)
        ensures
            match r {
                Ok(p) => self.valid() && p == self,
                Err(e) => self.validation_error() == Some(e),
            },
    {
        if let Err(e) = self.validate_paths() {
            return Err(e);
        }
        if let Err(e) = self.validate_length_range() {
            return Err(e);
        }
        if let Err(e) = self.validate_operations() {
            return Err(e);
        }
        Ok(self)
    }

    /// Checks that the input and the output path do not name the same
    /// resource.
    pub fn validate_paths(&self) -> (r: Result<(), Error>)
        ensures
            match r {
                Ok(()) => !self.same_paths(),
                Err(e) => self.same_paths() && e == Error::SamePaths,
            },
    {
        match (&self.input, &self.output) {
            (Some(i), Some(o)) => {
                if entries_equal(i, o) {
                    Err(Error::SamePaths)
                } else {
                    Ok(())
                }
            },
            _ => Ok(()),
        }
    }

    /// Checks the length range to ensure it is consistent.
    pub fn validate_length_range(&self) -> (r: Result<(), Error>)
        ensures
            match r {
                Ok(()) => self.length_range_error() is None,
                Err(e) => self.length_range_error() == Some(e),
            },
    {
        match (self.min_len, self.max_len) {
            (Some(min), Some(max)) => {
                if max < min {
                    Err(Error::MaxBelowMin)
                } else if min == usize::MAX {
                    Err(Error::MinLenNoOp)
                } else if max == 0 {
                    Err(Error::MaxLenNoOp)
                } else {
                    Ok(())
                }
            },
            (Some(min), None) => {
                if min == usize::MAX {
                    Err(Error::MinLenNoOp)
                } else {
                    Ok(())
                }
            },
            (None, Some(max)) => {
                if max == 0 {
                    Err(Error::MaxLenNoOp)
                } else {
                    Ok(())
                }
            },
            (None, None) => Ok(()),
        }
    }

    /// Checks the scheduled operations to ensure they are consistent.
    pub fn validate_operations(&self) -> (r: Result<(), Error>)
        ensures
            match r {
                Ok(()) => self.operations_error() is None,
                Err(e) => self.operations_error() == Some(e),
            },
    {
        if !self.sort && !self.unique && !self.reverse && self.min_len.is_none()
            && self.max_len.is_none() {
            Err(Error::NoOperation)
        } else if self.output.is_none() && self.append_output {
            Err(Error::AppendWithoutOutput)
        } else if self.pipe && self.sort {
            Err(Error::PipeWithSort)
        } else {
            Ok(())
        }
    }

    /// Whether the entries shall be filtered by length.
    pub fn has_length_range(&self) -> (r: bool)
        ensures
            r == (self.min_len is Some || self.max_len is Some),
    {
        self.min_len.is_some() || self.max_len.is_some()
    }
}

} // verus!
