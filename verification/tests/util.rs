use ragfs_git::util::validate_ref_name;

#[test]
fn test_validate_ref_name() {
    assert!(validate_ref_name("refs/heads/main").is_ok());
    assert!(validate_ref_name("refs/tags/v1.0").is_ok());
    assert!(validate_ref_name("HEAD").is_ok());

    assert!(validate_ref_name("").is_err());
    assert!(validate_ref_name("..").is_err());
    assert!(validate_ref_name("refs/../heads").is_err());
    assert!(validate_ref_name("/refs/heads").is_err());
    assert!(validate_ref_name("refs/heads/ ").is_err());
    assert!(validate_ref_name("refs~head").is_err());
    assert!(validate_ref_name("refs^head").is_err());
    assert!(validate_ref_name("refs:head").is_err());
    assert!(validate_ref_name("refs?head").is_err());
    assert!(validate_ref_name("refs[head]").is_err());
    assert!(validate_ref_name("refs*head").is_err());
}
