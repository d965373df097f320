use terrace_helm::release;

#[test]
fn a_release_is_compared_without_its_prefix() {
    assert_eq!(release(" v8.9.1 "), "8.9.1");
    assert_eq!(release("8.9.1"), "8.9.1");
}
