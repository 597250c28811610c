use wormod::error::Error;
use wormod::memory::{buffer_size, enough_memory_left, is_memory_enough_with, IO_BUF_SIZE};
use wormod::params::Params;

fn params() -> Params {
    Params {
        input: None,
        output: None,
        append_output: false,
        no_follow_symlinks: false,
        pipe: false,
        sort: false,
        unique: false,
        reverse: false,
        min_len: None,
        max_len: None,
    }
}

fn path(s: &str) -> Option<Vec<char>> {
    Some(s.chars().collect())
}

#[test]
fn a_consistent_configuration_is_accepted() {
    let mut p = params();
    p.sort = true;
    p.min_len = Some(1);
    p.max_len = Some(10);
    assert!(p.validate().is_ok());
}

#[test]
fn equal_input_and_output_paths_are_refused() {
    let mut p = params();
    p.unique = true;
    p.input = path("/tmp/words");
    p.output = path("/tmp/words");
    assert_eq!(p.validate().unwrap_err(), Error::SamePaths);
}

#[test]
fn distinct_paths_are_accepted() {
    let mut p = params();
    p.unique = true;
    p.input = path("/tmp/in");
    p.output = path("/tmp/out");
    assert!(p.validate().is_ok());
}

#[test]
fn max_below_min_is_refused() {
    let mut p = params();
    p.min_len = Some(5);
    p.max_len = Some(4);
    assert_eq!(p.validate().unwrap_err(), Error::MaxBelowMin);
}

#[test]
fn min_len_at_the_maximum_is_a_refused_no_op() {
    let mut p = params();
    p.min_len = Some(usize::MAX);
    assert_eq!(p.validate().unwrap_err(), Error::MinLenNoOp);
}

#[test]
fn max_len_zero_is_a_refused_no_op() {
    let mut p = params();
    p.max_len = Some(0);
    assert_eq!(p.validate().unwrap_err(), Error::MaxLenNoOp);
}

#[test]
fn no_requested_operation_is_refused() {
    let p = params();
    assert_eq!(p.validate().unwrap_err(), Error::NoOperation);
}

#[test]
fn append_without_output_is_refused() {
    let mut p = params();
    p.reverse = true;
    p.append_output = true;
    assert_eq!(p.validate().unwrap_err(), Error::AppendWithoutOutput);
}

#[test]
fn sorting_a_pipe_is_refused() {
    let mut p = params();
    p.pipe = true;
    p.sort = true;
    assert_eq!(p.validate().unwrap_err(), Error::PipeWithSort);
}

#[test]
fn length_range_presence_is_reported() {
    let mut p = params();
    assert!(!p.has_length_range());
    p.min_len = Some(1);
    assert!(p.has_length_range());
}

#[test]
fn admission_needs_the_reserve_left_over() {
    // 64 MiB must remain after the take
    assert!(is_memory_enough_with(1 << 30, 1 << 20));
    assert!(!is_memory_enough_with(1 << 26, 1));
    assert!(!is_memory_enough_with(1 << 20, 1 << 30));
}

#[test]
fn buffer_size_needs_the_reserve() {
    assert_eq!(buffer_size(1 << 30).unwrap(), IO_BUF_SIZE);
    assert_eq!(buffer_size(IO_BUF_SIZE).unwrap_err(), Error::LowMemory);
}

#[test]
fn the_memory_oracle_answers() {
    // exercises the real system query; any answer is acceptable
    let left = enough_memory_left();
    assert!(left || !left);
}
