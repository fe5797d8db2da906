use rank::form::{new_process, parse_inputs, parse_usize, FormError, InputError};

fn row(values: [&str; 6]) -> [String; 6] {
    values.map(|s| s.to_string())
}

#[test]
fn parse_usize_accepts_what_std_accepts() {
    for s in ["0", "7", "+7", "007", "18446744073709551615", "", "+", "-1", " 1", "1a", "18446744073709551616", "99999999999999999999x"] {
        assert_eq!(parse_usize(s), s.parse::<usize>().ok(), "{:?}", s);
    }
}

#[test]
fn parse_usize_values() {
    assert_eq!(parse_usize("42"), Some(42));
    assert_eq!(parse_usize("+0"), Some(0));
    assert_eq!(parse_usize("-0"), None);
    assert_eq!(parse_usize("4 2"), None);
}

#[test]
fn parse_inputs_reads_a_row() {
    assert_eq!(parse_inputs(&row(["1", "2", "3", "4", "5", "6"])), Ok([1, 2, 3, 4, 5, 6]));
}

#[test]
fn parse_inputs_first_error_wins() {
    assert_eq!(parse_inputs(&row(["1", "x", "", "4", "5", "6"])), Err(InputError::NotANumber));
    assert_eq!(parse_inputs(&row(["1", "", "x", "4", "5", "6"])), Err(InputError::Empty));
    assert_eq!(InputError::Empty.message(), "Inputs cannot be empty");
    assert_eq!(InputError::NotANumber.message(), "Inputs must be positive numbers");
}

#[test]
fn new_process_computes_need() {
    let p = new_process("P9", &row(["1", "0", "2", "0", "0", "0"]), &row(["3", "0", "2", "1", "0", "0"])).unwrap();
    assert_eq!(p.name, "P9");
    assert_eq!(p.allocation, [1, 0, 2, 0, 0, 0]);
    assert_eq!(p.max, [3, 0, 2, 1, 0, 0]);
    assert_eq!(p.need, [2, 0, 0, 1, 0, 0]);
}

#[test]
fn new_process_errors() {
    let ok = row(["0", "0", "0", "0", "0", "0"]);
    let bad = row(["0", "", "0", "0", "0", "0"]);
    let nan = row(["0", "0", "0", "-1", "0", "0"]);
    assert_eq!(new_process("", &bad, &bad).err(), Some(FormError::EmptyName));
    assert_eq!(new_process("a", &bad, &ok).err(), Some(FormError::Allocation(InputError::Empty)));
    assert_eq!(new_process("a", &ok, &nan).err(), Some(FormError::Max(InputError::NotANumber)));
    let more = row(["0", "0", "1", "0", "0", "0"]);
    assert_eq!(new_process("a", &more, &ok).err(), Some(FormError::AllocationExceedsMax));
    assert_eq!(FormError::EmptyName.message(), "Process name cannot be empty");
    assert_eq!(FormError::Allocation(InputError::Empty).message(), "Allocation: Inputs cannot be empty");
    assert_eq!(FormError::Max(InputError::NotANumber).message(), "Max: Inputs must be positive numbers");
    assert_eq!(FormError::AllocationExceedsMax.message(), "Allocation cannot be greater than Max");
}
