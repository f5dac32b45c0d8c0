use numeta::options::{Options, parse};

fn arguments(values: &[&str]) -> Vec<String> {
    values.iter().map(|value| value.to_string()).collect()
}

#[test]
fn no_arguments() {
    assert!(parse(&arguments(&["numeta"])).is_err());
}

#[test]
fn get_one_file() {
    assert_eq!(
        parse(&arguments(&["numeta", "1.png"])),
        Ok(Options {
            delete: false,
            source: "1.png".to_string(),
            destination: None,
        })
    );
}

#[test]
fn get_two_files() {
    assert!(parse(&arguments(&["numeta", "1.png", "2.png"])).is_err(),);
}

#[test]
fn get_dash() {
    assert_eq!(
        parse(&arguments(&["numeta", "--", "-"])),
        Ok(Options {
            delete: false,
            source: "-".to_string(),
            destination: None,
        })
    );
}

#[test]
fn get_unknown_option() {
    assert!(parse(&arguments(&["numeta", "-r", "1.png"])).is_err());
}

#[test]
fn delete_one_file() {
    assert_eq!(
        parse(&arguments(&["numeta", "-d", "1.png"])),
        Ok(Options {
            delete: true,
            destination: None,
            source: "1.png".to_string(),
        })
    );
}

#[test]
fn delete_two_files() {
    assert!(parse(&arguments(&["numeta", "-d", "1.png", "2.png"])).is_err(),);
}

#[test]
fn delete_dash() {
    assert_eq!(
        parse(&arguments(&["numeta", "-d", "--", "-"])),
        Ok(Options {
            delete: true,
            destination: None,
            source: "-".to_string(),
        })
    );
}

#[test]
fn delete_o() {
    assert_eq!(
        parse(&arguments(&["numeta", "-d", "-o", "2.png", "1.png"])),
        Ok(Options {
            delete: true,
            destination: Some("2.png".to_string()),
            source: "1.png".to_string(),
        })
    );
}

#[test]
fn delete_r() {
    assert_eq!(
        parse(&arguments(&["numeta", "-d", "-r", "1.png"])),
        Ok(Options {
            delete: true,
            destination: Some("1.png".to_string()),
            source: "1.png".to_string(),
        })
    );
}

#[test]
fn delete_unknown_option() {
    assert!(parse(&arguments(&["numeta", "-d", "-x", "1.png"])).is_err());
}
