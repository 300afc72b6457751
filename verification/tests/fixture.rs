use katana_fixture::config::{parse_metadata, render_setup, split_runner_metadata, test_attribute, try_parse_metadata};
use katana_fixture::runner::{log_contains, RunnerConfig};

fn cfg(metadata: &str) -> Option<(u16, String, bool, String, String)> {
    try_parse_metadata(metadata.as_bytes()).map(|(n, ex, b, ct, sc)| {
        (
            n,
            String::from_utf8(ex).unwrap(),
            b,
            String::from_utf8(ct).unwrap(),
            String::from_utf8(sc).unwrap(),
        )
    })
}

#[test]
fn empty_configuration_yields_defaults() {
    assert_eq!(
        cfg(""),
        Some((
            2,
            "katana".to_string(),
            false,
            "contracts/Scarb.toml".to_string(),
            "contracts/scripts/auth.sh".to_string()
        ))
    );
}

#[test]
fn account_count_is_incremented_for_deployer() {
    let (n, ex, b, ct, sc) = cfg("3").unwrap();
    assert_eq!(n, 4);
    assert_eq!(ex, "katana");
    assert!(!b);
    assert_eq!(ct, "contracts/Scarb.toml");
    assert_eq!(sc, "contracts/scripts/auth.sh");
}

#[test]
fn full_configuration_is_parsed_in_order() {
    let got = cfg("2, true , \"custom/node\" , my/Scarb.toml , my/run.sh").unwrap();
    assert_eq!(
        got,
        (
            3,
            "custom/node".to_string(),
            true,
            "my/Scarb.toml".to_string(),
            "my/run.sh".to_string()
        )
    );
}

#[test]
fn bad_account_count_is_rejected() {
    assert_eq!(cfg("abc"), None);
    assert_eq!(cfg(","), None);
}

#[test]
fn bad_mode_is_rejected() {
    assert_eq!(cfg("1,maybe"), None);
}

#[test]
fn count_overflow_is_rejected() {
    assert_eq!(cfg("65535"), None);
    assert_eq!(cfg("65534").unwrap().0, 65535);
    assert_eq!(cfg("70000"), None);
}

#[test]
fn parse_metadata_matches_try_on_valid_input() {
    let (n, ex, b, ct, sc) = parse_metadata(b"");
    assert_eq!(n, 2);
    assert_eq!(ex, b"katana".to_vec());
    assert!(!b);
    assert_eq!(ct, b"contracts/Scarb.toml".to_vec());
    assert_eq!(sc, b"contracts/scripts/auth.sh".to_vec());
}

#[test]
fn runner_metadata_splits_off_function_name() {
    let (name, rest) = split_runner_metadata(b"my_test,5,true");
    assert_eq!(name, b"my_test".to_vec());
    assert_eq!(rest, b"5,true".to_vec());
    let (name2, rest2) = split_runner_metadata(b"solo");
    assert_eq!(name2, b"solo".to_vec());
    assert_eq!(rest2, Vec::<u8>::new());
}

#[test]
fn log_file_name_is_derived_from_instance_name() {
    let c = RunnerConfig::new(b"katana".to_vec(), b"test_one_17".to_vec(), 2, false);
    assert_eq!(c.log_file_name(), b"test_one_17.log".to_vec());
}

#[test]
fn endpoint_formats_the_port() {
    let c = RunnerConfig::new(b"katana".to_vec(), b"t".to_vec(), 2, false);
    assert_eq!(c.endpoint(5050), b"http://0.0.0.0:5050".to_vec());
    assert_eq!(c.endpoint(80), b"http://0.0.0.0:80".to_vec());
    assert_eq!(c.endpoint(0), b"http://0.0.0.0:0".to_vec());
}

#[test]
fn readiness_marker_is_found_in_content() {
    let content = b"starting up\nRPC server started at 0.0.0.0:5050\n";
    assert!(log_contains(content, b"RPC server started"));
    assert!(!log_contains(content, b"mined"));
    assert!(!log_contains(b"", b"RPC"));
}

#[test]
fn rendered_setup_for_empty_configuration() {
    let out = render_setup(b"my_test", b"").unwrap();
    let text = String::from_utf8(out).unwrap();
    let want = format!(
        "{}{}",
        "let runner = katana_runner::KatanaRunner::new_with_args(\"katana\", \"my_test\", 2, false).expect(\"failed to start katana\");\n",
        "let contract_address = runner.deploy(\"contracts/Scarb.toml\", \"contracts/scripts/auth.sh\").await.expect(\"Failed to deploy\");\n"
    );
    assert_eq!(text, want);
}

#[test]
fn rendered_setup_skips_deploy_without_contract() {
    let out = render_setup(b"t", b"1,false,katana,").unwrap();
    let text = String::from_utf8(out).unwrap();
    assert_eq!(
        text,
        "let runner = katana_runner::KatanaRunner::new_with_args(\"katana\", \"t\", 2, false).expect(\"failed to start katana\");\n"
    );
    assert_eq!(render_setup(b"t", b"x"), None);
}

#[test]
fn attribute_follows_asyncness() {
    assert_eq!(test_attribute(false), b"#[test]".to_vec());
    assert_eq!(test_attribute(true), b"#[tokio::test]".to_vec());
}
