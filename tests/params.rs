use httpmock_core::{ExecutionParameters, ParamsError};

#[test]
fn test_params_parsing() {
    let params = ExecutionParameters::try_parse_from(&["httpmock", "-I"]).unwrap();
    assert!(params.is_interactive());
    assert!(params.interactive_ask);
    assert!(!params.interactive);

    let params = ExecutionParameters::try_parse_from(&["httpmock", "-i"]).unwrap();
    assert!(params.is_interactive());
    assert!(!params.interactive_ask);
    assert!(params.interactive);

    // Grouped short flags
    let params = ExecutionParameters::try_parse_from(&["httpmock", "-is"]).unwrap();
    assert!(params.is_interactive());
    assert!(params.is_save());
    assert!(!params.load);

    let params = ExecutionParameters::try_parse_from(&["httpmock", "-isl"]).unwrap();
    assert!(params.is_interactive());
    assert!(params.is_save());
    assert!(params.load);

    // Individual flags
    let params = ExecutionParameters::try_parse_from(&["httpmock", "-i"]).unwrap();
    assert!(params.is_interactive());
    assert!(!params.is_save());
    assert!(!params.load);

    let params = ExecutionParameters::try_parse_from(&["httpmock", "-l"]).unwrap();
    assert!(!params.is_interactive());
    assert!(params.load);
    assert!(!params.is_save());

    let params = ExecutionParameters::try_parse_from(&["httpmock", "-s"]).unwrap();
    assert!(!params.is_interactive());
    assert!(!params.load);
    assert!(params.is_save());
}

#[test]
fn params_defaults_without_options() {
    let params = ExecutionParameters::try_parse_from(&["httpmock"]).unwrap();
    assert_eq!(params.port, 5050);
    assert_eq!(params.request_history_limit, 100);
    assert!(!params.expose);
    assert!(!params.disable_access_log);
    assert!(params.mock_files_dir.is_none());
}

#[test]
fn params_values_long_and_short() {
    let params = ExecutionParameters::try_parse_from(&[
        "httpmock",
        "--port",
        "8080",
        "-r",
        "7",
        "--mock-files-dir",
        "/tmp/mocks",
        "--expose",
        "-d",
    ])
    .unwrap();
    assert_eq!(params.port, 8080);
    assert_eq!(params.request_history_limit, 7);
    assert_eq!(params.mock_files_dir.as_deref(), Some("/tmp/mocks"));
    assert!(params.expose);
    assert!(params.disable_access_log);

    let params = ExecutionParameters::try_parse_from(&["httpmock", "-sp9090"]).unwrap();
    assert_eq!(params.port, 9090);
    assert!(params.save);
}

#[test]
fn params_errors() {
    assert_eq!(
        ExecutionParameters::try_parse_from(&["httpmock", "-x"]).err(),
        Some(ParamsError::UnknownArgument)
    );
    assert_eq!(
        ExecutionParameters::try_parse_from(&["httpmock", "--nothing"]).err(),
        Some(ParamsError::UnknownArgument)
    );
    assert_eq!(
        ExecutionParameters::try_parse_from(&["httpmock", "plain"]).err(),
        Some(ParamsError::UnknownArgument)
    );
    assert_eq!(
        ExecutionParameters::try_parse_from(&["httpmock", "--port"]).err(),
        Some(ParamsError::MissingValue)
    );
    assert_eq!(
        ExecutionParameters::try_parse_from(&["httpmock", "-p", "70000"]).err(),
        Some(ParamsError::InvalidValue)
    );
    assert_eq!(
        ExecutionParameters::try_parse_from(&["httpmock", "-p", "12a"]).err(),
        Some(ParamsError::InvalidValue)
    );
}
