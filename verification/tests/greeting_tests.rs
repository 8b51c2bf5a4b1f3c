use zkproof::greeting::greet;

#[test]
fn greet_named() {
    assert_eq!(greet("Ada"), "Hello, Ada!");
}

#[test]
fn greet_empty() {
    assert_eq!(greet(""), "Hello, !");
}
