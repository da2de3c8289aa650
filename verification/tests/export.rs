use echojournal::export::{
    docx_date_run, docx_export_runs, docx_tag_run, export_file_name, export_format, pdf_export_text, pdf_heading,
    pdf_paragraph, ExportFormat,
};
use echojournal::journal::RawEntry;

fn entry(date: &str, time: &str, text: &str, tag: &str) -> RawEntry {
    RawEntry { date: date.to_string(), time: time.to_string(), text: text.to_string(), tag: tag.to_string() }
}

#[test]
fn pdf_text() {
    let e = entry("2024-05-01", "09:00", "Went hiking", "Wellness");
    assert_eq!(pdf_heading(&e), "2024-05-01 | 09:00");
    assert_eq!(pdf_paragraph(&e), "[#Wellness] Went hiking");
}

#[test]
fn docx_runs() {
    let e = entry("2024-05-01", "09:00", "Went hiking", "Wellness");
    assert_eq!(docx_date_run(&e), "2024-05-01 - 09:00 ");
    assert_eq!(docx_tag_run(&e), "[#Wellness] ");
}

#[test]
fn export_keeps_entry_order() {
    let v = vec![entry("b", "2", "t2", "g2"), entry("a", "1", "t1", "g1")];
    let p = pdf_export_text(&v);
    assert_eq!(p.len(), 2);
    assert_eq!(p[0].heading, "b | 2");
    assert_eq!(p[1].paragraph, "[#g1] t1");
    let d = docx_export_runs(&v);
    assert_eq!(d[1].date_run, "a - 1 ");
    assert_eq!(d[0].tag_run, "[#g2] ");
    assert_eq!(d[0].text_run, "t2");
}

#[test]
fn format_choice_and_file_name() {
    assert!(matches!(export_format("pdf"), ExportFormat::Pdf));
    assert!(matches!(export_format("docx"), ExportFormat::Docx));
    assert!(matches!(export_format("PDF"), ExportFormat::Docx));
    assert_eq!(export_file_name("pdf"), "My_EchoJournal.pdf");
}
