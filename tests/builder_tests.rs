use mregex_counter::builder::{Builder, NULL_INPUT_ERROR};

#[test]
fn test_output() {
    let mut builder = Builder::init_default("1.2A".to_string());
    let test_result = builder.process();
    assert_eq!(test_result.is_ok(), true);

    let mut builder2 = Builder::init_default("1.2\"hello world\"".to_string());
    let test_result2 = builder2.process();
    assert_eq!(test_result2.is_ok(), true);

    let mut builder3 = Builder::init_default("1.2(1.3AB)".to_string());
    let test_result3 = builder3.process();
    assert_eq!(test_result3.is_ok(), true);
}

#[test]
fn builder_rejects_empty_input() {
    let mut builder = Builder::init_default(String::new());
    assert_eq!(builder.process(), Err(NULL_INPUT_ERROR));
}
