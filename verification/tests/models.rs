use pdf_text_extract::decimal::decimal_string;
use pdf_text_extract::models::ChunkingStrategy;
use pdf_text_extract::pdf::PdfError;

#[test]
fn strategies_compare_by_variant() {
    assert!(ChunkingStrategy::Paragraph == ChunkingStrategy::Paragraph);
    assert!(ChunkingStrategy::Line == ChunkingStrategy::Line);
    assert!(ChunkingStrategy::Paragraph != ChunkingStrategy::Line);
    assert!(ChunkingStrategy::Line != ChunkingStrategy::Paragraph);
}

#[test]
fn strategy_names() {
    assert_eq!(ChunkingStrategy::Paragraph.value_name(), "paragraph");
    assert_eq!(ChunkingStrategy::Line.value_name(), "line");
    assert_eq!(ChunkingStrategy::Paragraph.to_string(), "Paragraph");
    assert_eq!(ChunkingStrategy::Line.to_string(), "Line");
}

#[test]
fn pdf_error_shows_its_message() {
    let error = PdfError {
        message: "PDF file does not exist: \"./samples/does_not_exist.pdf\"".to_string(),
    };
    assert!(error.to_string().contains("does not exist"));
    assert_eq!(error.to_string(), error.message);
}

#[test]
fn decimal_strings() {
    assert_eq!(decimal_string(0), "0");
    assert_eq!(decimal_string(7), "7");
    assert_eq!(decimal_string(10), "10");
    assert_eq!(decimal_string(1234567890), "1234567890");
    assert_eq!(decimal_string(u64::MAX), u64::MAX.to_string());
    for n in [9u64, 99, 100, 101, 4294967295, 4294967296] {
        assert_eq!(decimal_string(n), n.to_string());
    }
}
