use numeta::{Tag, metadata::office::{parse_application, parse_core}};

fn tag(name: &str, value: &str) -> Tag {
    Tag { name: name.to_string(), value: value.to_string() }
}

#[test]
fn application() {
    let data = br#"
	<Properties xmlns="http://schemas.openxmlformats.org/officeDocument/2006/extended-properties">
		<Application>Microsoft Office Word</Application>
		<AppVersion>16.0000</AppVersion>
	</Properties>"#;
    let mut metadata = Vec::new();
    assert!(parse_application(data, &mut metadata).is_ok());
    assert_eq!(metadata, vec![tag("Application", "Microsoft Office Word"), tag("AppVersion", "16.0000")]);
}

#[test]
fn application_no_value() {
    let data = br#"
	<Properties xmlns="http://schemas.openxmlformats.org/officeDocument/2006/extended-properties">
		<Application>Microsoft Office Word</Application>
		<AppVersion></AppVersion>
	</Properties>"#;
    let mut metadata = Vec::new();
    assert!(parse_application(data, &mut metadata).is_ok());
    assert_eq!(metadata, vec![tag("Application", "Microsoft Office Word")]);
}

#[test]
fn application_unknown_value_1() {
    let data = br#"
	<Properties xmlns="http://schemas.openxmlformats.org/officeDocument/2006/extended-properties">
		<Application>Microsoft Office Word</Application>
		<AppVersion><Unknown>16.0000</Unknown></AppVersion>
	</Properties>"#;
    let mut metadata = Vec::new();
    assert!(parse_application(data, &mut metadata).is_ok());
    assert_eq!(metadata, vec![tag("Application", "Microsoft Office Word"), tag("AppVersion", "Unknown")]);
}

#[test]
fn application_unknown_value_2() {
    let data = br#"
	<Properties xmlns="http://schemas.openxmlformats.org/officeDocument/2006/extended-properties">
		<Application>Microsoft Office Word</Application>
		<AppVersion>16.0000<Unknown></Unknown></AppVersion>
	</Properties>"#;
    let mut metadata = Vec::new();
    assert!(parse_application(data, &mut metadata).is_ok());
    assert_eq!(metadata, vec![tag("Application", "Microsoft Office Word"), tag("AppVersion", "Unknown")]);
}

#[test]
fn application_unknown_value_3() {
    let data = br#"
	<Properties xmlns="http://schemas.openxmlformats.org/officeDocument/2006/extended-properties">
		<Application>Microsoft Office Word</Application>
		<AppVersion><?xml version="1.0" encoding="UTF-8" standalone="yes"?></AppVersion>
	</Properties>"#;
    let mut metadata = Vec::new();
    assert!(parse_application(data, &mut metadata).is_ok());
    assert_eq!(metadata, vec![tag("Application", "Microsoft Office Word"), tag("AppVersion", "Unknown")]);
}

#[test]
fn application_unknown_root() {
    let data = br#"
	<Data>
		<Application>Microsoft Office Word</Application>
		<AppVersion>16.0000</AppVersion>
	</Data>"#;
    let mut metadata = Vec::new();
    assert!(parse_application(data, &mut metadata).is_ok());
    assert!(metadata.is_empty());
}

#[test]
fn core_properties() {
    let data = br#"
	<coreProperties
		xmlns="http://schemas.openxmlformats.org/package/2006/metadata/core-properties"
		xmlns:dc="http://purl.org/dc/elements/1.1/"
	>
		<dc:creator>Mike Rotch</dc:creator>
		<dc:language>en-US</dc:language>
	</coreProperties>"#;
    let mut metadata = Vec::new();
    assert!(parse_core(data, &mut metadata).is_ok());
    assert_eq!(metadata, vec![tag("creator", "Mike Rotch"), tag("language", "en-US")]);
}

#[test]
fn core_no_value() {
    let data = br#"
	<coreProperties
		xmlns="http://schemas.openxmlformats.org/package/2006/metadata/core-properties"
		xmlns:dc="http://purl.org/dc/elements/1.1/"
	>
		<dc:creator></dc:creator>
		<dc:language>en-US</dc:language>
	</coreProperties>"#;
    let mut metadata = Vec::new();
    assert!(parse_core(data, &mut metadata).is_ok());
    assert_eq!(metadata, vec![tag("language", "en-US")]);
}

#[test]
fn core_unknown_value_1() {
    let data = br#"
	<coreProperties
		xmlns="http://schemas.openxmlformats.org/package/2006/metadata/core-properties"
		xmlns:dc="http://purl.org/dc/elements/1.1/"
	>
		<dc:creator><Unknown>Mike Rotch</Unknown></dc:creator>
		<dc:language>en-US</dc:language>
	</coreProperties>"#;
    let mut metadata = Vec::new();
    assert!(parse_core(data, &mut metadata).is_ok());
    assert_eq!(metadata, vec![tag("creator", "Unknown"), tag("language", "en-US")]);
}

#[test]
fn core_unknown_value_2() {
    let data = br#"
	<coreProperties
		xmlns="http://schemas.openxmlformats.org/package/2006/metadata/core-properties"
		xmlns:dc="http://purl.org/dc/elements/1.1/"
	>
		<dc:creator>Mike Rotch<Unknown></Unknown></dc:creator>
		<dc:language>en-US</dc:language>
	</coreProperties>"#;
    let mut metadata = Vec::new();
    assert!(parse_core(data, &mut metadata).is_ok());
    assert_eq!(metadata, vec![tag("creator", "Unknown"), tag("language", "en-US")]);
}

#[test]
fn core_unknown_value_3() {
    let data = br#"
	<coreProperties
		xmlns="http://schemas.openxmlformats.org/package/2006/metadata/core-properties"
		xmlns:dc="http://purl.org/dc/elements/1.1/"
	>
		<dc:creator><Unknown><?xml version="1.0" encoding="UTF-8" standalone="yes"?></Unknown></dc:creator>
		<dc:language>en-US</dc:language>
	</coreProperties>"#;
    let mut metadata = Vec::new();
    assert!(parse_core(data, &mut metadata).is_ok());
    assert_eq!(metadata, vec![tag("creator", "Unknown"), tag("language", "en-US")]);
}

#[test]
fn core_unknown_root() {
    let data = br#"
	<Data>
		<dc:creator>Mike Rotch</dc:creator>
		<dc:language>en-US</dc:language>
	</Data>"#;
    let mut metadata = Vec::new();
    assert!(parse_core(data, &mut metadata).is_ok());
    assert!(metadata.is_empty());
}

#[test]
fn invalid_xml_1() {
    let data = br#"
	<Properties xmlns="http://schemas.openxmlformats.org/officeDocument/2006/extended-properties">
		<Application>Microsoft Office Word</Application>
		<AppVersion>16.0000</AppVersion>"#;
    let mut metadata = Vec::new();
    assert!(parse_application(data, &mut metadata).is_err());
}

#[test]
fn invalid_xml_2() {
    let data = br#"
	<Properties xmlns="http://schemas.openxmlformats.org/officeDocument/2006/extended-properties">
		<Application>Microsoft Office Word
		<AppVersion>16.0000</AppVersion>
	</Properties>"#;
    let mut metadata = Vec::new();
    assert!(parse_application(data, &mut metadata).is_err());
}

#[test]
fn invalid_xml_3() {
    let data = br#"
	<Properties xmlns="http://schemas.openxmlformats.org/officeDocument/2006/extended-properties">
		<Application>Microsoft Office Word</Data>
		<AppVersion>16.0000</AppVersion>
	</Properties>"#;
    let mut metadata = Vec::new();
    assert!(parse_application(data, &mut metadata).is_err());
}
