use pal::cli::{parse_cli, CliError};
use pal::options::{Method, OutputFormat};

fn args(list: &[&str]) -> Vec<String> {
    list.iter().map(|s| s.to_string()).collect()
}

#[test]
fn plain_path_uses_defaults() {
    let a = parse_cli(&args(&["pal", "img.png"])).unwrap();
    assert_eq!(a.image_path.as_deref(), Some("img.png"));
    assert_eq!(a.method, Method::AreaAverage);
    assert_eq!(a.format, OutputFormat::HEX);
    assert!(!a.verbose && !a.preview);
    assert!(a.saturation.is_none());
}

#[test]
fn flags_and_values_are_read() {
    let a = parse_cli(&args(&["pal", "-s", "1.5", "--method", "km", "-f", "rgb", "-v", "--preview", "x.jpg"])).unwrap();
    assert_eq!(a.saturation.as_deref(), Some("1.5"));
    assert_eq!(a.method, Method::KMeans);
    assert_eq!(a.format, OutputFormat::RGB);
    assert!(a.verbose && a.preview);
    assert_eq!(a.image_path.as_deref(), Some("x.jpg"));
    let b = parse_cli(&args(&["pal", "x.jpg", "-m", "ansi", "--saturation", "-1"])).unwrap();
    assert_eq!(b.method, Method::ANSI);
    assert_eq!(b.saturation.as_deref(), Some("-1"));
}

#[test]
fn command_line_errors() {
    assert_eq!(parse_cli(&args(&["pal"])).err(), Some(CliError::MissingImagePath));
    assert_eq!(parse_cli(&args(&["pal", "-v"])).err(), Some(CliError::MissingImagePath));
    assert_eq!(parse_cli(&args(&["pal", "a.png", "-m"])).err(), Some(CliError::MissingValue(2)));
    assert_eq!(parse_cli(&args(&["pal", "-m", "fast", "a.png"])).err(), Some(CliError::InvalidMethod(2)));
    assert_eq!(parse_cli(&args(&["pal", "-f", "HEX", "a.png"])).err(), Some(CliError::InvalidFormat(2)));
    assert_eq!(parse_cli(&args(&["pal", "-x", "a.png"])).err(), Some(CliError::UnknownFlag(1)));
    assert_eq!(parse_cli(&args(&["pal", "a.png", "b.png"])).err(), Some(CliError::UnexpectedArgument(2)));
}
