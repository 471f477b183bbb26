//! Composition tests: merging, selector validation, rotation, pruning
//! and stream compaction, on sources built in memory.

use pdf_rancher::graph::{collect_page_ids, graph_get};
use pdf_rancher::model::check_graph_wf;
use pdf_rancher::{
    Dict, DictEntry, DocumentGraph, Error, GraphEntry, ObjectId, PdfObject, Project, Rotation,
    Selector, Source, SourceFile, Stream,
};

fn key(k: &str) -> Vec<u8> {
    k.as_bytes().to_vec()
}

fn entry(k: &str, value: PdfObject) -> DictEntry {
    DictEntry { key: key(k), value }
}

fn dict(entries: Vec<DictEntry>) -> Dict {
    Dict { entries }
}

fn id(num: u32) -> ObjectId {
    ObjectId { num, gen: 0 }
}

/// A three-page document; page `j` carries `markers[j]` in its content
/// stream, and `rotates[j]`, when set, as its `Rotate` value.
fn make_document(markers: &[&str], rotates: &[Option<i64>]) -> DocumentGraph {
    let n = markers.len() as u32;
    let mut objects = Vec::new();
    // catalog 1, pages 2, then page/content pairs from 3
    objects.push(GraphEntry {
        id: id(1),
        obj: PdfObject::Dictionary(dict(vec![
            entry("Type", PdfObject::Name(key("Catalog"))),
            entry("Pages", PdfObject::Reference(id(2))),
        ])),
    });
    let kids: Vec<PdfObject> = (0..n).map(|j| PdfObject::Reference(id(3 + 2 * j))).collect();
    objects.push(GraphEntry {
        id: id(2),
        obj: PdfObject::Dictionary(dict(vec![
            entry("Type", PdfObject::Name(key("Pages"))),
            entry("Kids", PdfObject::Array(kids)),
            entry("Count", PdfObject::Integer(n as i64)),
        ])),
    });
    for (j, marker) in markers.iter().enumerate() {
        let j = j as u32;
        let mut page_entries = vec![
            entry("Type", PdfObject::Name(key("Page"))),
            entry("Parent", PdfObject::Reference(id(2))),
            entry("Contents", PdfObject::Reference(id(4 + 2 * j))),
        ];
        if let Some(deg) = rotates[j as usize] {
            page_entries.push(entry("Rotate", PdfObject::Integer(deg)));
        }
        objects.push(GraphEntry {
            id: id(3 + 2 * j),
            obj: PdfObject::Dictionary(dict(page_entries)),
        });
        objects.push(GraphEntry {
            id: id(4 + 2 * j),
            obj: PdfObject::Stream(Stream {
                dict: dict(vec![]),
                content: marker.as_bytes().to_vec(),
                allows_compression: true,
            }),
        });
    }
    DocumentGraph {
        objects,
        trailer: dict(vec![entry("Root", PdfObject::Reference(id(1)))]),
        max_id: 2 * n + 2,
        version: b"1.5".to_vec(),
    }
}

fn make_source(path: &str, markers: &[&str], rotates: &[Option<i64>]) -> SourceFile {
    SourceFile {
        id: "abcdefg".to_string(),
        source: Source::PDF(path.to_string()),
        document: make_document(markers, rotates),
        pages: Vec::new(),
    }
}

fn three_page_source(path: &str) -> SourceFile {
    make_source(path, &["(1)", "(2)", "(3)"], &[None, None, None])
}

fn stream_contents(doc: &DocumentGraph) -> Vec<Vec<u8>> {
    doc.objects
        .iter()
        .filter_map(|e| match &e.obj {
            PdfObject::Stream(s) => Some(s.content.clone()),
            _ => None,
        })
        .collect()
}

fn page_dict<'a>(doc: &'a DocumentGraph, page: ObjectId) -> &'a Dict {
    match graph_get(doc, page) {
        Some(PdfObject::Dictionary(d)) => d,
        _ => panic!("page object is not a dictionary"),
    }
}

fn dict_value<'a>(d: &'a Dict, k: &str) -> Option<&'a PdfObject> {
    d.get(k.as_bytes())
}

#[test]
fn test_merge_documents() {
    let project = Project {
        source_files: vec![
            three_page_source("test/basic.pdf"),
            three_page_source("test/legal.pdf"),
            three_page_source("test/paysage.pdf"),
        ],
    };
    let selectors = vec![Selector::new(0, 0), Selector::new(1, 1), Selector::new(2, 2)];

    let document = project.export(&selectors).unwrap();

    assert_eq!(3, collect_page_ids(&document).len());

    let count_streams = stream_contents(&document)
        .iter()
        .filter(|c| {
            c.windows(3)
                .any(|w| w == [40, 49, 41] || w == [40, 50, 41] || w == [40, 51, 41])
        })
        .count();

    // unselected pages' content streams have been pruned away
    assert_eq!(3, count_streams);
}

#[test]
fn test_export_invalid_source_index_errors() {
    let project = Project { source_files: vec![three_page_source("test/basic.pdf")] };
    // source index 1 does not exist; only 0 does
    let selectors = vec![Selector::new(1, 0)];
    let result = project.export(&selectors);
    assert!(result.is_err());
    assert!(matches!(result, Err(Error::SelectorOutOfRange(0))));
}

#[test]
fn test_export_invalid_page_index_errors() {
    let project = Project { source_files: vec![three_page_source("test/basic.pdf")] };
    // the source has only 3 pages
    let selectors = vec![Selector::new(0, 99)];
    let result = project.export(&selectors);
    assert!(result.is_err());
    assert!(matches!(result, Err(Error::SelectorOutOfRange(0))));
}

#[test]
fn test_export_with_no_sources_errors() {
    let project = Project { source_files: vec![] };
    let selectors = vec![Selector::new(0, 0)];
    let result = project.export(&selectors);
    assert!(result.is_err());
    assert!(matches!(result, Err(Error::EmptySources)));
    assert_eq!("No source files to export", result.unwrap_err().message());
}

#[test]
fn test_rotate() {
    let project = Project { source_files: vec![three_page_source("test/basic.pdf")] };

    let selectors = vec![
        Selector { source_file_index: 0, page_index: 0, rotation: Rotation::R0 },
        Selector { source_file_index: 0, page_index: 1, rotation: Rotation::R270 },
        Selector { source_file_index: 0, page_index: 2, rotation: Rotation::R90 },
    ];

    let document = project.export(&selectors).unwrap();

    let pages = collect_page_ids(&document);
    assert_eq!(3, pages.len());

    assert!(dict_value(page_dict(&document, pages[0]), "Rotate").is_none());
    assert!(matches!(
        dict_value(page_dict(&document, pages[1]), "Rotate"),
        Some(PdfObject::Integer(270))
    ));
    assert!(matches!(
        dict_value(page_dict(&document, pages[2]), "Rotate"),
        Some(PdfObject::Integer(90))
    ));
}

#[test]
fn test_rotate_keeps_source_rotation_without_override() {
    // the source's second page already carries a rotation of its own
    let project = Project {
        source_files: vec![make_source(
            "test/basic.pdf",
            &["(1)", "(2)"],
            &[None, Some(180)],
        )],
    };
    let selectors = vec![Selector::new(0, 0), Selector::new(0, 1)];
    let document = project.export(&selectors).unwrap();
    let pages = collect_page_ids(&document);
    assert_eq!(2, pages.len());
    assert!(dict_value(page_dict(&document, pages[0]), "Rotate").is_none());
    assert!(matches!(
        dict_value(page_dict(&document, pages[1]), "Rotate"),
        Some(PdfObject::Integer(180))
    ));
}

#[test]
fn test_export_with_no_selectors_yields_empty_document() {
    // an explicit policy: selectors may be empty, the output then has no pages
    let project = Project { source_files: vec![three_page_source("test/basic.pdf")] };
    let selectors: Vec<Selector> = vec![];
    let document = project.export(&selectors).unwrap();
    assert_eq!(0, collect_page_ids(&document).len());
}

#[test]
fn test_export_without_catalog_is_structural_error() {
    let mut source = three_page_source("test/basic.pdf");
    // strip the catalog object
    source.document.objects.remove(0);
    let project = Project { source_files: vec![source] };
    let result = project.export(&vec![]);
    assert!(matches!(result, Err(Error::StructuralError(_))));
}

#[test]
fn test_export_compresses_large_streams() {
    // a content stream large enough that deflating it pays off
    let marker = "(1)".repeat(400);
    let project = Project {
        source_files: vec![make_source("test/basic.pdf", &[&marker], &[None])],
    };
    let document = project.export(&vec![Selector::new(0, 0)]).unwrap();
    let mut found = false;
    for e in &document.objects {
        if let PdfObject::Stream(s) = &e.obj {
            if let Some(PdfObject::Name(f)) = s.dict.get(b"Filter") {
                assert_eq!(b"FlateDecode".to_vec(), *f);
                assert!(s.content.len() < marker.len());
                let mut decoded = Vec::new();
                let mut reader = flate2::read::ZlibDecoder::new(s.content.as_slice());
                std::io::Read::read_to_end(&mut reader, &mut decoded).unwrap();
                assert_eq!(marker.as_bytes().to_vec(), decoded);
                found = true;
            }
        }
    }
    assert!(found);
}

#[test]
fn test_clear() {
    let source_file = three_page_source("test/basic.pdf");
    let mut project = Project { source_files: Vec::new() };
    project.add_source_files(vec![source_file]);

    assert_eq!(1, project.source_files.len());

    project.clear();

    assert_eq!(0, project.source_files.len());
}

#[test]
fn test_preview_hands_back_the_selected_source() {
    let project = Project { source_files: vec![three_page_source("test/basic.pdf")] };
    let ok = project.preview(&Selector::new(0, 2));
    let (doc, page_index) = ok.unwrap();
    assert_eq!(3, collect_page_ids(doc).len());
    assert_eq!(2, page_index);

    assert!(project.preview(&Selector::new(0, 3)).is_err());
    assert!(project.preview(&Selector::new(1, 0)).is_err());
}

#[test]
fn test_pages_dictionary_merge_is_first_wins() {
    // both sources carry a MediaBox on their page-tree roots; the first
    // source's value survives, a key only the second source has is added
    let mut first = three_page_source("test/basic.pdf");
    if let PdfObject::Dictionary(d) = &mut first.document.objects[1].obj {
        d.entries.push(entry(
            "MediaBox",
            PdfObject::Array(vec![
                PdfObject::Integer(0),
                PdfObject::Integer(0),
                PdfObject::Integer(595),
                PdfObject::Integer(842),
            ]),
        ));
    }
    let mut second = three_page_source("test/legal.pdf");
    if let PdfObject::Dictionary(d) = &mut second.document.objects[1].obj {
        d.entries.push(entry(
            "MediaBox",
            PdfObject::Array(vec![
                PdfObject::Integer(0),
                PdfObject::Integer(0),
                PdfObject::Integer(612),
                PdfObject::Integer(1008),
            ]),
        ));
        d.entries.push(entry("Rotate", PdfObject::Integer(90)));
    }
    let project = Project { source_files: vec![first, second] };
    let document = project.export(&vec![Selector::new(0, 0), Selector::new(1, 0)]).unwrap();

    // the surviving page-tree root
    let pages = collect_page_ids(&document);
    let parent = match dict_value(page_dict(&document, pages[0]), "Parent") {
        Some(PdfObject::Reference(p)) => *p,
        _ => panic!("page has no parent"),
    };
    let root = match graph_get(&document, parent) {
        Some(PdfObject::Dictionary(d)) => d,
        _ => panic!("page tree root is not a dictionary"),
    };
    match dict_value(root, "MediaBox") {
        Some(PdfObject::Array(items)) => {
            assert!(matches!(items[3], PdfObject::Integer(842)));
        },
        _ => panic!("merged root lost its media box"),
    }
    // the second source's extra key was carried over
    assert!(matches!(dict_value(root, "Rotate"), Some(PdfObject::Integer(90))));
}

#[test]
fn test_check_graph_wf_spots_duplicates() {
    let mut doc = make_document(&["(1)"], &[None]);
    assert!(check_graph_wf(&doc));
    // a duplicated identifier breaks well-formedness
    let dup = GraphEntry { id: id(1), obj: PdfObject::Null };
    doc.objects.push(dup);
    assert!(!check_graph_wf(&doc));
}

#[test]
fn test_check_graph_wf_spots_duplicate_keys() {
    let mut doc = make_document(&["(1)"], &[None]);
    if let PdfObject::Dictionary(d) = &mut doc.objects[0].obj {
        d.entries.push(entry("Pages", PdfObject::Reference(id(2))));
    }
    assert!(!check_graph_wf(&doc));
}
