use codegraph::ingest::{chunk, extension, ingest_image_arm, ingest_pdf_text, ingest_plan, ingest_web_text, IngestSource};

#[test]
fn chunk_packs_paragraphs_and_trims() {
    let cs = chunk("Alpha.\n\nBeta.\n\n\n", "md", "a.md");
    assert_eq!(cs.len(), 1);
    assert_eq!(cs[0].text, "Alpha.\n\nBeta.");
    assert_eq!(cs[0].content_type, "md");
    assert_eq!(cs[0].source, "a.md");
    assert!(chunk("  \n\n ", "txt", "e.txt").is_empty());
}

#[test]
fn chunk_splits_past_the_byte_budget() {
    let para = "x".repeat(1000);
    let text = format!("{para}\n\n{para}\n\n{para}");
    let cs = chunk(&text, "txt", "big.txt");
    assert_eq!(cs.len(), 3);
    assert_eq!(cs[0].text, format!("{para}\n\n"));
    assert_eq!(cs[1].text, format!("{para}\n\n"));
    assert_eq!(cs[2].text, para);
}

#[test]
fn ingest_inputs_are_classified() {
    assert!(matches!(ingest_plan("https://example.com/x"), Ok(IngestSource::Web)));
    assert!(matches!(ingest_plan("doc.PDF"), Ok(IngestSource::Pdf)));
    assert!(matches!(ingest_plan("notes.md"), Ok(IngestSource::Text)));
    match ingest_plan("photo.png") {
        Err(m) => assert!(m.contains("image OCR requires")),
        Ok(_) => panic!("image input needs OCR"),
    }
    match ingest_plan("clip.mp4") {
        Err(m) => assert!(m.contains("audio/video ingest")),
        Ok(_) => panic!("media input"),
    }
    match ingest_plan("data.bin") {
        Err(m) => assert_eq!(m, "unsupported ingest input: data.bin (pdf, txt/md, or http(s) url)"),
        Ok(_) => panic!("unsupported"),
    }
    assert!(ingest_image_arm("p.png").is_err());
    assert_eq!(extension("a.tar.gz"), Some("gz".to_string()));
    assert_eq!(extension("README"), None);
}

#[test]
fn web_text_becomes_web_chunks() {
    let html = "<html><body><h1>Guide</h1><p>First paragraph.</p><p>Second paragraph.</p></body></html>";
    let text = html2text::from_read(html.as_bytes(), 100).unwrap();
    let got = ingest_web_text(&text, "https://example.org/guide");
    assert_eq!(got.len(), 1);
    assert_eq!(got[0].content_type, "web");
    assert_eq!(got[0].source, "https://example.org/guide");
    assert!(got[0].text.contains("First paragraph."));
    assert!(got[0].text.contains("Second paragraph."));
    let expected = chunk(&text, "web", "https://example.org/guide");
    assert_eq!(got[0].text, expected[0].text);
}

#[test]
fn empty_web_text_has_no_chunks() {
    assert!(ingest_web_text("\n\n  \n", "http://x").is_empty());
}

#[test]
fn pdf_text_becomes_pdf_chunks() {
    let got = ingest_pdf_text("Title\n\nBody text.", "notes.pdf");
    assert_eq!(got.len(), 1);
    assert_eq!(got[0].content_type, "pdf");
    assert_eq!(got[0].source, "notes.pdf");
    assert_eq!(got[0].text, "Title\n\nBody text.");
}
