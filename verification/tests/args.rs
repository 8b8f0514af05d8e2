use n_body::args::{select_parameters, ArgumentError, ARGUMENT_COUNT};

fn args_of(words: &[&str]) -> Vec<String> {
    words.iter().map(|w| w.to_string()).collect()
}

#[test]
fn select_parameters_readme_example() {
    let args = args_of(&[
        "n_body", "1500", "100", "3000.0", "2000.0", "6000.0", "0.0", "0.0", "-1.0", "0.0", "0.0",
    ]);
    let params = select_parameters(args).unwrap();
    assert_eq!(
        params,
        args_of(&["1500", "100", "3000.0", "2000.0", "6000.0", "0.0", "0.0", "-1.0", "0.0", "0.0"])
    );
}

#[test]
fn select_parameters_too_few() {
    let args = args_of(&["n_body", "1500", "100"]);
    assert_eq!(select_parameters(args), Err(ArgumentError::WrongCount));
    assert_eq!(select_parameters(Vec::new()), Err(ArgumentError::WrongCount));
}

#[test]
fn select_parameters_too_many() {
    let mut args = args_of(&[
        "n_body", "1", "2", "3", "4", "5", "6", "7", "8", "9", "10",
    ]);
    args.push("11".to_string());
    assert_eq!(args.len(), ARGUMENT_COUNT + 1);
    assert_eq!(select_parameters(args), Err(ArgumentError::WrongCount));
}
