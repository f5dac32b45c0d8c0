use numeta::{Tag, metadata::pdf::{delete, get}};

const REFERENCE: &[u8] = b"%PDF-1.0
%\xBB\xAD\xC0\xDE
1 0 obj
<</Type/Catalog/Pages 2 0 R>>
endobj
2 0 obj
<</Type/Pages/Count 1/Kids[3 0 R]/MediaBox[0 0 595 842]>>
endobj
3 0 obj
<</Type/Page/Parent 2 0 R>>
endobj
xref
0 4
0000000000 65535 f \n\
0000000015 00000 n \n\
0000000060 00000 n \n\
0000000133 00000 n \n\
trailer
<</Root 1 0 R/Size 4>>
startxref
176
%%EOF";

const BASIC: &[u8] = b"%PDF-1.0
1 0 obj<</Type/Catalog/Pages 2 0 R>>endobj
2 0 obj<</Type/Pages/Count 1/Kids[3 0 R]/MediaBox[0 0 595 842]>>endobj
3 0 obj<</Type/Page/Parent 2 0 R>>endobj
xref
0 4
0000000000 65535 f \n\
0000000009 00000 n \n\
0000000052 00000 n \n\
0000000123 00000 n \n\
trailer<</Root 1 0 R/Size 4>>
startxref
164
%%EOF";

const INFO: &[u8] = b"%PDF-1.0
1 0 obj<</Creator(LibreOffice 25.0)>>endobj
2 0 obj<</Type/Catalog/Pages 3 0 R>>endobj
3 0 obj<</Type/Pages/Count 1/Kids[4 0 R]/MediaBox[0 0 595 842]>>endobj
4 0 obj<</Type/Page/Parent 3 0 R>>endobj
xref
0 5
0000000000 65535 f \n\
0000000009 00000 n \n\
0000000053 00000 n \n\
0000000096 00000 n \n\
0000000167 00000 n \n\
trailer<</Root 2 0 R/Size 5/Info 1 0 R>>
startxref
208
%%EOF";

const XMP: &[u8] = b"%PDF-1.0
1 0 obj<</Type/Catalog/Pages 2 0 R/Metadata 4 0 R>>endobj
2 0 obj<</Type/Pages/Count 1/Kids[3 0 R]/MediaBox[0 0 595 842]>>endobj
3 0 obj<</Type/Page/Parent 2 0 R>>endobj
4 0 obj<</Type/Metadata/Subtype/XML/Length 258>>stream
<?xml version=\"1.0\" encoding=\"UTF-8\"?>
<xmpmeta xmlns:x=\"adobe:ns:meta/\">
<rdf:RDF xmlns:rdf=\"http://www.w3.org/1999/02/22-rdf-syntax-ns#\">
<rdf:Description rdf:about=\"\">
<pdf:Producer>LibreOffice 25.0</pdf:Producer>
</rdf:Description>
</rdf:RDF>
</xmpmeta>
endstream
endobj
xref
0 5
0000000000 65535 f \n\
0000000009 00000 n \n\
0000000067 00000 n \n\
0000000138 00000 n \n\
0000000179 00000 n \n\
trailer<</Root 1 0 R/Size 5>>
startxref
509
%%EOF";

#[test]
fn pdf_get_basic() {
    let tags = get(BASIC);
    assert!(tags.is_ok());
    assert!(tags.unwrap().is_empty());
}

#[test]
fn pdf_delete_basic() {
    let data = delete(BASIC);
    assert!(data.is_ok());
    assert_eq!(data.unwrap(), REFERENCE);
}

#[test]
fn get_info() {
    let tags = get(INFO);
    assert!(tags.is_ok());
    let expected = vec![Tag { name: "Creator".to_string(), value: "LibreOffice 25.0".to_string() }];
    assert_eq!(tags.unwrap(), expected);
}

#[test]
fn delete_info() {
    let data = delete(INFO);
    assert!(data.is_ok());
    assert_eq!(data.unwrap(), REFERENCE);
}

#[test]
fn pdf_get_xmp() {
    let tags = get(XMP);
    assert!(tags.is_ok());
    let expected = vec![Tag { name: "Producer".to_string(), value: "LibreOffice 25.0".to_string() }];
    assert_eq!(tags.unwrap(), expected);
}

#[test]
fn pdf_delete_xmp() {
    let data = delete(XMP);
    assert!(data.is_ok());
    assert_eq!(data.unwrap(), REFERENCE);
}
