//! Command line scopes, config files and URLs.
use icehorn::cli::Scope;
use icehorn::config::{ConfigError, S3Config};
use icehorn::s3_url::{strip_scheme, S3Location, S3UrlError};

#[test]
fn scope_parses_keywords() {
    assert!(matches!(Scope::parse("latest").unwrap(), Scope::Latest));
    assert!(matches!(Scope::parse("all").unwrap(), Scope::All));
}

#[test]
fn scope_parses_version_number() {
    assert!(matches!(Scope::parse("5").unwrap(), Scope::Version(5)));
    // Versions are padded to five digits in file names.
    assert!(matches!(Scope::parse("00005").unwrap(), Scope::Version(5)));
}

#[test]
fn scope_rejects_garbage() {
    assert!(Scope::parse("nope").is_err());
    assert!(Scope::parse("").is_err());
}

#[test]
fn scope_is_a_number_of_32_bits() {
    assert_eq!(Scope::parse("4294967295"), Ok(Scope::Version(u32::MAX)));
    assert!(Scope::parse("4294967296").is_err());
    assert_eq!(Scope::parse("+7"), Ok(Scope::Version(7)));
    assert!(Scope::parse("-7").is_err());
    assert!(Scope::parse("Latest").is_err());
    assert_eq!(
        Scope::parse("nope"),
        Err("expected 'latest', 'all', or a metadata version number; got 'nope'".to_string())
    );
}

#[test]
fn parse_minimal_config() {
    let cfg = S3Config::parse(
        "\
[default]
access_key = AKIA1234
secret_key = s3cr3t
host_base = s3.us-east-va.io.cloud.ovh.us
host_bucket = false
bucket_location = us-east-va
use_https = True
",
    )
    .unwrap();

    assert_eq!(cfg.access_key, "AKIA1234");
    assert_eq!(cfg.secret_key, "s3cr3t");
    assert_eq!(cfg.host_base, "s3.us-east-va.io.cloud.ovh.us");
    assert_eq!(cfg.bucket_location, "us-east-va");
    assert!(cfg.use_https);
    assert!(!cfg.virtual_hosted_style);
}

#[test]
fn defaults_for_aws() {
    let cfg = S3Config::parse(
        "\
[default]
access_key = AKIA1234
secret_key = s3cr3t
",
    )
    .unwrap();

    assert_eq!(cfg.host_base, "s3.amazonaws.com");
    assert_eq!(cfg.bucket_location, "us-east-1");
    assert!(cfg.use_https);
    assert!(!cfg.virtual_hosted_style);
}

#[test]
fn config_without_keys_is_rejected() {
    assert_eq!(
        S3Config::parse("secret_key = s").err(),
        Some(ConfigError::MissingAccessKey)
    );
    assert_eq!(
        S3Config::parse("access_key = a").err(),
        Some(ConfigError::MissingSecretKey)
    );
    assert_eq!(S3Config::parse("").err(), Some(ConfigError::MissingAccessKey));
    assert_eq!(ConfigError::MissingAccessKey.message(), "missing access_key");
    assert_eq!(ConfigError::MissingSecretKey.message(), "missing secret_key");
}

#[test]
fn config_lines_of_all_kinds() {
    let cfg = S3Config::parse(
        "# access_key = comment\r\n; secret_key = comment\n  access_key=a=b \nsecret_key = first\nno equals sign\nsecret_key =  second\nhost_bucket = %(bucket)s.example\nuse_https = no\nhost_base = h",
    )
    .unwrap();
    assert_eq!(cfg.access_key, "a=b");
    assert_eq!(cfg.secret_key, "second");
    assert!(cfg.virtual_hosted_style);
    assert!(!cfg.use_https);
    assert_eq!(cfg.endpoint(), "http://h");
    let https = S3Config::parse("access_key = a\nsecret_key = b\nhost_bucket = False\n").unwrap();
    assert!(!https.virtual_hosted_style);
    assert_eq!(https.endpoint(), "https://s3.amazonaws.com");
}

#[test]
fn parses_s3_url() {
    let loc = S3Location::parse("s3://my-bucket/warehouse/db/table").unwrap();
    assert_eq!(loc.bucket, "my-bucket");
    assert_eq!(loc.prefix, "warehouse/db/table");
}

#[test]
fn parses_s3a_url_and_trims_trailing_slash() {
    let loc = S3Location::parse("s3a://my-bucket/warehouse/db/table/").unwrap();
    assert_eq!(loc.bucket, "my-bucket");
    assert_eq!(loc.prefix, "warehouse/db/table");
}

#[test]
fn rejects_missing_scheme() {
    assert!(S3Location::parse("my-bucket/warehouse").is_err());
}

#[test]
fn rejects_missing_path() {
    assert!(S3Location::parse("s3://my-bucket").is_err());
}

#[test]
fn url_errors_name_the_url() {
    let scheme = S3Location::parse("my-bucket/warehouse").err().unwrap();
    assert!(matches!(scheme, S3UrlError::MissingScheme(_)));
    assert_eq!(scheme.message(), "URL must start with s3:// or s3a://: my-bucket/warehouse");
    let path = S3Location::parse("s3://my-bucket").err().unwrap();
    assert!(matches!(path, S3UrlError::MissingPath(_)));
    assert_eq!(path.message(), "URL must contain a path after bucket: s3://my-bucket");
    let empty = S3Location::parse("s3://b/").unwrap();
    assert_eq!(empty.prefix, "");
    assert_eq!(strip_scheme("s3a://x/y"), Some("x/y"));
    assert_eq!(strip_scheme("s4://x/y"), None);
}

#[test]
fn schemes_and_trailing_slashes_make_no_difference() {
    let plain = S3Location::parse("s3://b/p/q").unwrap();
    for url in ["s3a://b/p/q", "s3://b/p/q/", "s3a://b/p/q//"] {
        let other = S3Location::parse(url).unwrap();
        assert_eq!((other.bucket, other.prefix), (plain.bucket.clone(), plain.prefix.clone()));
    }
}
