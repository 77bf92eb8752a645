use limitchain::document::loader::docx::DocxLoader;
use limitchain::document::loader::markdown::MarkdownLoader;
use limitchain::document::loader::xml::{decode, has_text, RawEvent, XMLLoader, XmlEvent};
use limitchain::document::loader::{AttrValue, Document, DocumentLoader, LoadError, Meta, Tag};
use limitchain::str_map::StrMap;
use std::io::Write;

#[test]
fn test_markdown_loader() {
    let loader = MarkdownLoader {};
    let docs = loader.load_mem(r#"# hello"#).unwrap();
    println!("{:#?}", docs);
    assert_eq!(
        docs,
        vec![Document {
            text: "# hello".to_string(),
            meta: Meta::empty()
        }]
    );
}

#[test]
fn test_xml_loader_mem() {
    let loader = XMLLoader {};
    let doc = loader
        .load_mem(
            r#"
    <html>
        <head>
            <title>hello</title>
        </head>
        <body>
            <div class="content">
                <p>hello world</p>
            </div>
        </body>
    </html>
    "#,
        )
        .unwrap();
    println!("{:#?}", doc);
    let texts: Vec<&str> = doc.iter().map(|d| d.text.as_str()).collect();
    assert_eq!(texts, vec!["hello", "hello world"]);
    let names = |d: &Document| -> Vec<String> {
        d.meta
            .tag_stack
            .as_ref()
            .unwrap()
            .iter()
            .map(|t| t.name.clone())
            .collect()
    };
    assert_eq!(names(&doc[0]), vec!["html", "head", "title"]);
    assert_eq!(names(&doc[1]), vec!["html", "body", "div", "p"]);
    let div = &doc[1].meta.tag_stack.as_ref().unwrap()[2];
    assert_eq!(
        div.attrs.get("class"),
        Some(&AttrValue::Text("content".to_string()))
    );
    assert!(doc[0].meta.tag_stack.as_ref().unwrap()[0].attrs.is_empty());
}

fn tag(name: &str) -> Tag {
    Tag {
        name: name.to_string(),
        attrs: StrMap::new(),
    }
}

#[test]
fn texts_know_the_elements_around_them() {
    let loader = XMLLoader {};
    let docs = loader
        .load_events(vec![
            XmlEvent::Text("before".to_string()),
            XmlEvent::Start(tag("a")),
            XmlEvent::Start(tag("b")),
            XmlEvent::Text("inner".to_string()),
            XmlEvent::End,
            XmlEvent::Other,
            XmlEvent::Text("  \n ".to_string()),
            XmlEvent::Text("outer".to_string()),
            XmlEvent::End,
            XmlEvent::End,
            XmlEvent::Text("after".to_string()),
        ])
        .unwrap();
    let seen: Vec<(String, usize)> = docs
        .iter()
        .map(|d| (d.text.clone(), d.meta.tag_stack.as_ref().unwrap().len()))
        .collect();
    assert_eq!(
        seen,
        vec![
            ("before".to_string(), 0),
            ("inner".to_string(), 2),
            ("outer".to_string(), 1),
            ("after".to_string(), 0)
        ]
    );
    assert_eq!(docs[1].meta.merge, None);
}

#[test]
fn what_cannot_be_read_fails_the_load() {
    let loader = XMLLoader {};
    assert_eq!(
        loader.load_events(vec![
            XmlEvent::Text("a".to_string()),
            XmlEvent::Invalid,
            XmlEvent::Text("b".to_string())
        ]),
        Err(LoadError::Malformed)
    );
    assert_eq!(loader.load_events(vec![]), Ok(vec![]));
}

#[test]
fn white_space_is_no_text() {
    assert!(has_text(" a "));
    assert!(!has_text(" \t\r\n\u{3000}\u{a0}"));
    assert!(!has_text(""));
}

#[test]
fn markup_is_read_with_its_references_and_attributes() {
    let loader = XMLLoader {};
    let docs = loader
        .load_mem("<a x=\"1\" y='&lt;'>fish &amp; chips<!-- no --><b/></a><c> </c>")
        .unwrap();
    assert_eq!(docs.len(), 1);
    assert_eq!(docs[0].text, "fish & chips");
    let a = &docs[0].meta.tag_stack.as_ref().unwrap()[0];
    assert_eq!(a.name, "a");
    assert_eq!(a.attrs.len(), 2);
    assert_eq!(a.attrs.get("x"), Some(&AttrValue::Text("1".to_string())));
    assert_eq!(a.attrs.get("y"), Some(&AttrValue::Text("&lt;".to_string())));
    assert_eq!(loader.load_mem(""), Ok(vec![]));
}

#[test]
fn markup_that_cannot_be_read_gives_no_documents_at_all() {
    let loader = XMLLoader {};
    // an attribute that cannot be made out
    assert_eq!(loader.load_mem("<a x>text</a>"), Err(LoadError::Malformed));
    // a reference that cannot be resolved
    assert_eq!(
        loader.load_mem("<a>one</a><c>&bogus;</c>"),
        Err(LoadError::Malformed)
    );
    // the reader gives up after a text was read: an end tag that does not
    // fit, a comment that is left open
    assert_eq!(
        loader.load_mem("<a>one</a><b>two</c>"),
        Err(LoadError::Malformed)
    );
    assert_eq!(
        loader.load_mem("<a>one</a><!-- open"),
        Err(LoadError::Malformed)
    );
}

#[test]
fn raw_events_become_events() {
    assert_eq!(decode(&RawEvent::End), XmlEvent::End);
    assert_eq!(decode(&RawEvent::Other), XmlEvent::Other);
    assert_eq!(
        decode(&RawEvent::Text(Some("t".to_string()))),
        XmlEvent::Text("t".to_string())
    );
    assert_eq!(decode(&RawEvent::Text(None)), XmlEvent::Invalid);
    let mut attrs = StrMap::new();
    attrs.insert("k".to_string(), AttrValue::Bytes(vec![0xff]));
    attrs.insert("a".to_string(), AttrValue::Text("2".to_string()));
    assert_eq!(
        decode(&RawEvent::Start(
            b"n".to_vec(),
            vec![
                Some((b"k".to_vec(), vec![0xff])),
                Some((b"a".to_vec(), b"1".to_vec())),
                Some((b"a".to_vec(), b"2".to_vec()))
            ]
        )),
        XmlEvent::Start(Tag {
            name: "n".to_string(),
            attrs
        })
    );
    assert_eq!(
        decode(&RawEvent::Start(vec![0xff], vec![])),
        XmlEvent::Invalid
    );
    assert_eq!(
        decode(&RawEvent::Start(b"n".to_vec(), vec![None])),
        XmlEvent::Invalid
    );
    assert_eq!(
        decode(&RawEvent::Start(
            b"n".to_vec(),
            vec![Some((vec![0xc0], b"v".to_vec()))]
        )),
        XmlEvent::Invalid
    );
}

fn archive(member: &str, content: &str) -> Vec<u8> {
    let mut writer = zip::ZipWriter::new(std::io::Cursor::new(Vec::new()));
    writer
        .start_file(
            member,
            zip::write::FileOptions::default().compression_method(zip::CompressionMethod::Stored),
        )
        .unwrap();
    writer.write_all(content.as_bytes()).unwrap();
    writer.finish().unwrap().into_inner()
}

#[test]
fn a_word_file_is_an_archive_of_markup() {
    let loader = DocxLoader {};
    let bytes = archive("word/document.xml", "<w:p><w:t>hello</w:t></w:p>");
    let docs = loader.load_bytes(&bytes).unwrap();
    assert_eq!(docs.len(), 1);
    assert_eq!(docs[0].text, "hello");
    assert_eq!(docs[0].meta.tag_stack.as_ref().unwrap().len(), 2);
    assert_eq!(
        loader.load_bytes(&archive("other.xml", "<a>x</a>")),
        Err(LoadError::Archive)
    );
    assert_eq!(loader.load_bytes(b"no archive"), Err(LoadError::Archive));
    assert_eq!(loader.load_mem("no archive"), Err(LoadError::Archive));
    assert_eq!(
        loader.load_bytes(&archive("word/document.xml", "<a x>t</a>")),
        Err(LoadError::Malformed)
    );
}

/// An archive whose member carries the extra field of an encrypted entry
/// while its header says that it is not encrypted.
fn archive_with_stray_encryption_field(member: &str, content: &str) -> Vec<u8> {
    let mut writer = zip::ZipWriter::new(std::io::Cursor::new(Vec::new()));
    writer
        .start_file_with_extra_data(
            member,
            zip::write::FileOptions::default().compression_method(zip::CompressionMethod::Stored),
        )
        .unwrap();
    // an unassigned field with the length and the layout of the encryption field
    let stand_in = [0xfe, 0xca, 0x07, 0x00, 0x02, 0x00, 0x41, 0x45, 0x01, 0x00, 0x00];
    writer.write_all(&stand_in).unwrap();
    writer.end_extra_data().unwrap();
    writer.write_all(content.as_bytes()).unwrap();
    let mut bytes = writer.finish().unwrap().into_inner();
    let mut patched = 0;
    for i in 0..bytes.len() - stand_in.len() + 1 {
        if bytes[i..i + stand_in.len()] == stand_in {
            bytes[i] = 0x01;
            bytes[i + 1] = 0x99;
            patched += 1;
        }
    }
    assert!(patched >= 1);
    bytes
}

#[test]
fn a_member_that_needs_a_password_fails_the_load() {
    let loader = DocxLoader {};
    let bytes = archive_with_stray_encryption_field("word/document.xml", "<a>x</a>");
    // the archive opens and the member is found, but it is refused
    let mut archive = zip::ZipArchive::new(std::io::Cursor::new(bytes.as_slice())).unwrap();
    assert!(matches!(
        archive.by_name_decrypt("word/document.xml", &[]),
        Ok(Err(_))
    ));
    assert_eq!(loader.load_bytes(&bytes), Err(LoadError::Archive));
}
