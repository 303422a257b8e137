//! What a run is asked to do, checked before anything is walked.

use vstd::prelude::*;
use crate::node::Node;
use crate::render::{line_views, list_lines, tree_lines, Line};
use crate::scan::{read_integer, scan_digits, to_chars, unsigned_part};
use crate::size::{size_fault_text, size_from_text, str_to_file_size, SizeError, SizeFault};

verus! {

/// Why a text is not a depth.
#[derive(Debug, PartialEq, Eq)]
pub enum DepthError {
    /// The text is not a whole number that fits 32 bits. Holds the text.
    NotANumber(String),
    /// The number is below -1.
    TooSmall,
}

/// What a [`DepthError`] stands for.
pub enum DepthFault {
    NotANumber(Seq<char>),
    TooSmall,
}

impl View for DepthError {
    type V = DepthFault;

    open spec fn view(&self) -> DepthFault {
        match self {
            DepthError::NotANumber(input) => DepthFault::NotANumber(input@),
            DepthError::TooSmall => DepthFault::TooSmall,
        }
    }
}

/// A fault in words.
pub open spec fn depth_fault_text(fault: DepthFault) -> Seq<char> {
    match fault {
        DepthFault::NotANumber(input) => "Invalid depth provided, expected integer value, got '"@
            + input + "'"@,
        DepthFault::TooSmall => "Depth must be 0 or greater or -1 for max depth"@,
    }
}

impl DepthError {
    /// The error in words.
    pub fn message(&self) -> (text: String)
        ensures
            text@ == depth_fault_text(self@),
    {
        match self {
            DepthError::NotANumber(input) => {
                let mut text = "Invalid depth provided, expected integer value, got '".to_owned();
                text.append(input.as_str());
                text.append("'");
                text
            },
            DepthError::TooSmall => "Depth must be 0 or greater or -1 for max depth".to_owned(),
        }
    }
}

/// The depth that a text gives: a whole number from 0 on, or -1 for no limit, which is
/// `i32::MAX` levels.
pub open spec fn depth_from_text(input: Seq<char>) -> Result<i32, DepthFault> {
    match read_integer(input) {
        Some(number) if i32::MIN <= number <= i32::MAX => {
            if number < -1 {
                Err(DepthFault::TooSmall)
            } else if number == -1 {
                Ok(i32::MAX)
            } else {
                Ok(number as i32)
            }
        },
        _ => Err(DepthFault::NotANumber(input)),
    }
}

/// The outcome of reading a depth, with the error by its view.
pub open spec fn depth_outcome(outcome: Result<i32, DepthError>) -> Result<i32, DepthFault> {
    match outcome {
        Ok(depth) => Ok(depth),
        Err(error) => Err(error@),
    }
}

/// Reads a whole number that fits 32 bits; `None` if the text is none.
fn read_i32(input: &str) -> (number: Option<i32>)
    ensures
        number == match read_integer(input@) {
            Some(number) if i32::MIN <= number <= i32::MAX => Some(number as i32),
            _ => None::<i32>,
        },
{
    let chars = to_chars(input);
    let end = chars.len();
    let mut at: usize = 0;
    let mut negative = false;
    if end > 0 && (chars[0] == '+' || chars[0] == '-') {
        negative = chars[0] == '-';
        at = 1;
    }
    let ghost digits = unsigned_part(input@);
    assert(digits =~= chars@.subrange(at as int, end as int));
    let (stop, value) = scan_digits(&chars, at, end);
    if stop < end || stop == at {
        proof {
            if stop < end {
                assert(digits[stop - at] == chars@[stop as int]);
            }
        }
        return None;
    }
    if negative {
        if value <= 2_147_483_648 {
            Some((-(value as i64)) as i32)
        } else {
            None
        }
    } else {
        if value <= 2_147_483_647 {
            Some(value as i32)
        } else {
            None
        }
    }
}

/// Reads a depth: a whole number from 0 on, or -1 for no limit.
pub fn parse_depth(input: &str) -> (outcome: Result<i32, DepthError>)
    ensures
        depth_outcome(outcome) == depth_from_text(input@),
{
    match read_i32(input) {
        None => Err(DepthError::NotANumber(input.to_owned())),
        Some(number) => {
            if number < -1 {
                Err(DepthError::TooSmall)
            } else if number == -1 {
                Ok(i32::MAX)
            } else {
                Ok(number)
            }
        },
    }
}

/// What a run is asked to do, as it was written: the depth and the threshold still as text.
pub struct Arguments {
    /// The directory to walk.
    pub path: String,
    /// How many levels to show: a whole number from 0 on, or -1 for all.
    pub depth: String,
    pub sort: bool,
    pub reverse: bool,
    pub list: bool,
    pub machine: bool,
    pub only_files: bool,
    /// The size below which entries are not shown, as people write sizes.
    pub threshold: Option<String>,
}

/// What a run is asked to do.
#[derive(Debug, PartialEq, Eq)]
pub struct AppSettings {
    /// The directory to walk.
    pub path: String,
    /// How many levels to show.
    pub depth: i32,
    /// Whether children are sorted, the largest first.
    pub sort: bool,
    /// Whether the lines are put out last to first.
    pub reverse: bool,
    /// Whether the entries are listed rather than shown as a tree.
    pub list: bool,
    /// Whether sizes are given in bytes.
    pub machine: bool,
    /// Whether a list leaves directories out.
    pub only_files: bool,
    /// The size below which entries are not shown.
    pub threshold: Option<u64>,
}

/// Why a run cannot start.
#[derive(Debug, PartialEq, Eq)]
pub enum SettingsError {
    /// The depth is none.
    Depth(DepthError),
    /// The threshold is no size.
    Threshold(SizeError),
    /// The path is not that of a directory. Holds the path.
    InvalidPath(String),
}

impl SettingsError {
    /// The error in words.
    pub fn message(&self) -> (text: String)
        ensures
            text@ == match self {
                SettingsError::Depth(error) => depth_fault_text(error@),
                SettingsError::Threshold(error) => size_fault_text(error@),
                SettingsError::InvalidPath(path) => "Invalid path provided: "@ + path@,
            },
    {
        match self {
            SettingsError::Depth(error) => error.message(),
            SettingsError::Threshold(error) => error.message(),
            SettingsError::InvalidPath(path) => {
                let mut text = "Invalid path provided: ".to_owned();
                text.append(path.as_str());
                text
            },
        }
    }
}

/// The threshold that the arguments give, where they give one.
pub open spec fn threshold_from_text(threshold: Option<String>) -> Result<Option<u64>, SizeFault> {
    match threshold {
        None => Ok(None),
        Some(text) => match size_from_text(text@) {
            Ok(size) => Ok(Some(size)),
            Err(fault) => Err(fault),
        },
    }
}

impl AppSettings {
    /// Checks what was asked for. The depth is read first, then the threshold; last, the path
    /// must be that of a directory, which `path_is_dir` says. The first that fails is the
    /// error.
    pub fn from_arguments(arguments: Arguments, path_is_dir: bool) -> (outcome: Result<
        AppSettings,
        SettingsError,
    >)
        ensures
            match outcome {
                Ok(settings) => {
                    &&& depth_from_text(arguments.depth@) == Ok::<i32, DepthFault>(settings.depth)
                    &&& threshold_from_text(arguments.threshold) == Ok::<Option<u64>, SizeFault>(
                        settings.threshold,
                    )
                    &&& path_is_dir
                    &&& settings.path@ == arguments.path@
                    &&& settings.sort == arguments.sort
                    &&& settings.reverse == arguments.reverse
                    &&& settings.list == arguments.list
                    &&& settings.machine == arguments.machine
                    &&& settings.only_files == arguments.only_files
                },
                Err(SettingsError::Depth(error)) => depth_from_text(arguments.depth@) == Err::<
                    i32,
                    DepthFault,
                >(error@),
                Err(SettingsError::Threshold(error)) => {
                    &&& depth_from_text(arguments.depth@) is Ok
                    &&& threshold_from_text(arguments.threshold) == Err::<Option<u64>, SizeFault>(
                        error@,
                    )
                },
                Err(SettingsError::InvalidPath(path)) => {
                    &&& depth_from_text(arguments.depth@) is Ok
                    &&& threshold_from_text(arguments.threshold) is Ok
                    &&& !path_is_dir
                    &&& path@ == arguments.path@
                },
            },
    {
        let depth = match parse_depth(arguments.depth.as_str()) {
            Ok(depth) => depth,
            Err(error) => {
                return Err(SettingsError::Depth(error));
            },
        };
        let threshold = match &arguments.threshold {
            None => None,
            Some(text) => match str_to_file_size(text.as_str()) {
                Ok(size) => Some(size),
                Err(error) => {
                    return Err(SettingsError::Threshold(error));
                },
            },
        };
        if !path_is_dir {
            return Err(SettingsError::InvalidPath(arguments.path));
        }
        Ok(
            AppSettings {
                path: arguments.path,
                depth,
                sort: arguments.sort,
                reverse: arguments.reverse,
                list: arguments.list,
                machine: arguments.machine,
                only_files: arguments.only_files,
                threshold,
            },
        )
    }

    /// The lines that these settings ask for: the list of the tree, or the tree itself from
    /// its root.
    pub fn lines(&self, node: &Node) -> (lines: Vec<Line>)
        ensures
            line_views(lines@) == if self.list {
                list_lines(node@, self.only_files, self.threshold, self.machine)
            } else {
                tree_lines(node@, 0, self.threshold, self.machine, None)
            },
    {
        if self.list {
            node.list_lines(self.only_files, self.threshold, self.machine)
        } else {
            node.tree_lines(0, self.threshold, self.machine, None).0
        }
    }
}

} // verus!
