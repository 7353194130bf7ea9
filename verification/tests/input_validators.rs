use task_maker::ioi::{default_input_validator_generator, InputValidator, InputValidatorGenerator, SourceFile};

#[test]
fn default_generator_assumes_valid() {
    let g = default_input_validator_generator();
    assert!(matches!(g.generate(None), InputValidator::AssumeValid));
    assert!(matches!(g.generate(Some(3)), InputValidator::AssumeValid));
}

#[test]
fn custom_generator_is_called_with_the_subtask() {
    let g = InputValidatorGenerator::new(|s: Option<u32>| {
        InputValidator::Custom(SourceFile { path: "val.py".to_string() }, vec![format!("{:?}", s)])
    });
    match g.generate(Some(2)) {
        InputValidator::Custom(src, args) => {
            assert_eq!(src.path, "val.py");
            assert_eq!(args, vec!["Some(2)".to_string()]);
        }
        _ => panic!("expected the custom validator"),
    }
}
