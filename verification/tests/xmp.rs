use numeta::{Tag, metadata::xmp::get};

fn tag(name: &str, value: &str) -> Tag {
    Tag { name: name.to_string(), value: value.to_string() }
}

#[test]
fn nothing() {
    let data = br#""#;
    let mut metadata = Vec::new();
    assert!(get(data, &mut metadata).is_ok());
    assert_eq!(metadata, Vec::new());
}

#[test]
fn no_entries() {
    let data = br#"<x:xmpmeta xmlns:x="adobe:ns:meta/"></x:xmpmeta>"#;
    let mut metadata = Vec::new();
    assert!(get(data, &mut metadata).is_ok());
    assert_eq!(metadata, Vec::new());
}

#[test]
fn no_xpacket() {
    let data = br#"
    <x:xmpmeta xmlns:x="adobe:ns:meta/">
        <rdf:RDF xmlns:rdf="http://www.w3.org/1999/02/22-rdf-syntax-ns#">
            <rdf:Description xmlns:xmp="http://ns.adobe.com/xap/1.0/">
                <xmp:CreateDate>2025-01-20T18:30:00+00</xmp:CreateDate>
            </rdf:Description>
        </rdf:RDF>
    </x:xmpmeta>"#;
    let mut metadata = Vec::new();
    assert!(get(data, &mut metadata).is_ok());
    assert_eq!(metadata, vec![tag("CreateDate", "2025-01-20T18:30:00+00")]);
}

#[test]
fn basic_namespace_x1() {
    let data = br#"<?xpacket begin="" id="W5M0MpCehiHzreSzNTczkc9d"?>
    <x:xmpmeta xmlns:x="adobe:ns:meta/">
        <rdf:RDF xmlns:rdf="http://www.w3.org/1999/02/22-rdf-syntax-ns#">
            <rdf:Description xmlns:xmp="http://ns.adobe.com/xap/1.0/">
                <xmp:CreateDate>2025-01-20T18:30:00+00</xmp:CreateDate>
            </rdf:Description>
        </rdf:RDF>
    </x:xmpmeta>"#;
    let mut metadata = Vec::new();
    assert!(get(data, &mut metadata).is_ok());
    assert_eq!(metadata, vec![tag("CreateDate", "2025-01-20T18:30:00+00")]);
}

#[test]
fn basic_namespace_x2() {
    let data = br#"<?xpacket begin="" id="W5M0MpCehiHzreSzNTczkc9d"?>
    <x:xmpmeta xmlns:x="adobe:ns:meta/">
        <rdf:RDF xmlns:rdf="http://www.w3.org/1999/02/22-rdf-syntax-ns#">
            <rdf:Description xmlns:xmp="http://ns.adobe.com/xap/1.0/">
                <xmp:CreateDate>2025-01-20T18:30:00+00</xmp:CreateDate>
                <xmp:CreatorTool>Photoshop</xmp:CreatorTool>
            </rdf:Description>
        </rdf:RDF>
    </x:xmpmeta>"#;
    let mut metadata = Vec::new();
    assert!(get(data, &mut metadata).is_ok());
    assert_eq!(metadata, vec![tag("CreateDate", "2025-01-20T18:30:00+00"), tag("CreatorTool", "Photoshop")]);
}

#[test]
fn mm_namespace_x1() {
    let data = br#"<?xpacket begin="" id="W5M0MpCehiHzreSzNTczkc9d"?>
    <x:xmpmeta xmlns:x="adobe:ns:meta/">
        <rdf:RDF xmlns:rdf="http://www.w3.org/1999/02/22-rdf-syntax-ns#">
            <rdf:Description xmlns:xmpMM="http://ns.adobe.com/xap/1.0/mm/">
                <xmpMM:InstanceID>uuid:239c0e7a-a320-4a2b-abef-6f3cbc516f23</xmpMM:InstanceID>
            </rdf:Description>
        </rdf:RDF>
    </x:xmpmeta>"#;
    let mut metadata = Vec::new();
    assert!(get(data, &mut metadata).is_ok());
    assert_eq!(metadata, vec![tag("InstanceID", "uuid:239c0e7a-a320-4a2b-abef-6f3cbc516f23")]);
}

#[test]
fn mm_namespace_x2() {
    let data = br#"<?xpacket begin="" id="W5M0MpCehiHzreSzNTczkc9d"?>
    <x:xmpmeta xmlns:x="adobe:ns:meta/">
        <rdf:RDF xmlns:rdf="http://www.w3.org/1999/02/22-rdf-syntax-ns#">
            <rdf:Description xmlns:xmpMM="http://ns.adobe.com/xap/1.0/mm/">
                <xmpMM:InstanceID>uuid:239c0e7a-a320-4a2b-abef-6f3cbc516f23</xmpMM:InstanceID>
                <xmpMM:VersionID>1</xmpMM:VersionID>
            </rdf:Description>
        </rdf:RDF>
    </x:xmpmeta>"#;
    let mut metadata = Vec::new();
    assert!(get(data, &mut metadata).is_ok());
    assert_eq!(metadata, vec![tag("InstanceID", "uuid:239c0e7a-a320-4a2b-abef-6f3cbc516f23"), tag("VersionID", "1")]);
}

#[test]
fn dc_namespace_x1() {
    let data = br#"<?xpacket begin="" id="W5M0MpCehiHzreSzNTczkc9d"?>
    <x:xmpmeta xmlns:x="adobe:ns:meta/">
        <rdf:RDF xmlns:rdf="http://www.w3.org/1999/02/22-rdf-syntax-ns#">
            <rdf:Description xmlns:dc="http://purl.org/dc/elements/1.1/">
                <dc:date>2025-01-20</dc:date>
            </rdf:Description>
        </rdf:RDF>
    </x:xmpmeta>"#;
    let mut metadata = Vec::new();
    assert!(get(data, &mut metadata).is_ok());
    assert_eq!(metadata, vec![tag("date", "2025-01-20")]);
}

#[test]
fn dc_namespace_x2() {
    let data = br#"<?xpacket begin="" id="W5M0MpCehiHzreSzNTczkc9d"?>
    <x:xmpmeta xmlns:x="adobe:ns:meta/">
        <rdf:RDF xmlns:rdf="http://www.w3.org/1999/02/22-rdf-syntax-ns#">
            <rdf:Description xmlns:dc="http://purl.org/dc/elements/1.1/">
                <dc:date>2025-01-20</dc:date>
                <dc:language>en-US</dc:language>
            </rdf:Description>
        </rdf:RDF>
    </x:xmpmeta>"#;
    let mut metadata = Vec::new();
    assert!(get(data, &mut metadata).is_ok());
    assert_eq!(metadata, vec![tag("date", "2025-01-20"), tag("language", "en-US")]);
}

#[test]
fn history() {
    let data = br#"<?xpacket begin="" id="W5M0MpCehiHzreSzNTczkc9d"?>
    <x:xmpmeta xmlns:x="adobe:ns:meta/">
        <rdf:RDF
            xmlns:rdf="http://www.w3.org/1999/02/22-rdf-syntax-ns#"
            xmlns:xmpMM="http://ns.adobe.com/xap/1.0/mm/"
        >
            <xmpMM:History>
                <rdf:Seq>
                    <rdf:li stEvt:action="saved" stEvt:when="2025-01-20T18:30:00"/>
                </rdf:Seq>
            </xmpMM:History>
        </rdf:RDF>
    </x:xmpmeta>"#;
    let mut metadata = Vec::new();
    assert!(get(data, &mut metadata).is_ok());
    assert_eq!(metadata, Vec::new());
}

#[test]
fn error_1() {
    let data = br#"<x:xmpmeta xmlns:x="adobe:ns:meta/">"#;
    let mut metadata = Vec::new();
    assert!(get(data, &mut metadata).is_err());
}

#[test]
fn error_2() {
    let data = br#"<x:xmpmeta xmlns:x="adobe:ns:meta/"><rdf:RDF xmlns:rdf="http://www.w3.org/1999/02/22-rdf-syntax-ns#">"#;
    let mut metadata = Vec::new();
    assert!(get(data, &mut metadata).is_err());
}
