use quill_delta_pdf::delta::{Attribute, Change, Delta, DeltaType, Image, ListType, Op};
use quill_delta_pdf::elements::{PdfElement, TextStyle};
use quill_delta_pdf::image::{resolve_image, DeltaPdfError};
use quill_delta_pdf::DeltaPdf;

fn text(s: &str) -> Op {
    Op { change: Change::Insert(DeltaType::String(s.to_string())), attributes: None }
}

fn text_with(s: &str, attrs: Vec<Attribute>) -> Op {
    Op { change: Change::Insert(DeltaType::String(s.to_string())), attributes: Some(attrs) }
}

fn image(url: &str) -> Op {
    Op {
        change: Change::Insert(DeltaType::Image(Image { image: url.to_string() })),
        attributes: None,
    }
}

fn doc(ops: Vec<Op>) -> DeltaPdf {
    let mut delta = Delta::new();
    for op in ops {
        delta.push(op);
    }
    DeltaPdf::new(delta)
}

fn texts(elems: &[PdfElement]) -> Vec<String> {
    elems
        .iter()
        .map(|e| match e {
            PdfElement::Text(run) => run.text.clone(),
            PdfElement::Image(p) => format!("[image {}]", p),
        })
        .collect()
}

fn style(e: &PdfElement) -> TextStyle {
    match e {
        PdfElement::Text(run) => run.style,
        PdfElement::Image(_) => panic!("not a text run"),
    }
}

#[test]
fn end_to_end_title_and_ordered_list() {
    let pdf = doc(vec![
        text("Title"),
        text_with("\n", vec![Attribute::Header(1)]),
        text("Item A"),
        text_with("\n", vec![Attribute::List(ListType::Ordered)]),
        text("Item B"),
        text_with("\n", vec![Attribute::List(ListType::Ordered)]),
    ]);
    let elems = pdf.to_elements().unwrap();
    assert_eq!(texts(&elems), vec!["Title", "1. Item A", "2. Item B", ""]);
    assert_eq!(style(&elems[0]).font_size, Some(18));
    assert_eq!(style(&elems[1]).font_size, None);
    assert_eq!(style(&elems[2]).font_size, None);
}

#[test]
fn plain_text_keeps_all_text_and_line_breaks() {
    let inserts = ["Hello\nWor", "ld\n", "", "last\n\nline"];
    let pdf = doc(inserts.iter().map(|s| text(s)).collect());
    let elems = pdf.to_elements().unwrap();
    let lines = texts(&elems);
    assert_eq!(lines, vec!["Hello", "World", "last", "", "line"]);
    assert_eq!(lines.join("\n"), inserts.concat());
    for e in &elems {
        let s = style(e);
        assert!(!s.bold && !s.italic && s.font_size.is_none());
    }
}

#[test]
fn empty_document_has_no_elements() {
    let pdf = doc(vec![]);
    assert!(pdf.to_elements().unwrap().is_empty());
    assert_eq!(pdf.to_string(), "");
}

#[test]
fn converting_twice_gives_the_same_elements() {
    let make = || {
        let mut pdf = doc(vec![
            text("a\nb"),
            text_with("\n", vec![Attribute::Header(2), Attribute::List(ListType::Bullet)]),
            image("https://example.com/x/y.png"),
            text_with("c", vec![Attribute::Bold(true)]),
        ]);
        pdf.set_image_dir("img".to_string());
        pdf
    };
    let pdf = make();
    let first = pdf.to_elements().unwrap();
    let second = pdf.to_elements().unwrap();
    assert_eq!(texts(&first), texts(&second));
    assert_eq!(format!("{:?}", first), format!("{:?}", second));
    assert_eq!(texts(&first), vec!["a", "\u{2022} b", "", "[image img/y.png]", "c"]);
}

#[test]
fn heading_levels_set_previous_line_size() {
    for (level, size) in [(1u8, Some(18u8)), (2, Some(16)), (3, None), (0, None)] {
        let pdf = doc(vec![text("Head"), text_with("\n", vec![Attribute::Header(level)])]);
        let elems = pdf.to_elements().unwrap();
        assert_eq!(texts(&elems), vec!["Head", ""]);
        assert_eq!(style(&elems[0]).font_size, size);
        assert_eq!(style(&elems[1]).font_size, None);
    }
}

#[test]
fn heading_on_empty_document_is_ignored() {
    let pdf = doc(vec![text_with("x", vec![Attribute::Header(1)])]);
    let elems = pdf.to_elements().unwrap();
    assert_eq!(texts(&elems), vec!["x"]);
    assert_eq!(style(&elems[0]).font_size, None);
}

#[test]
fn ordered_run_counts_up() {
    let mut ops = Vec::new();
    for item in ["one", "two", "three", "four"] {
        ops.push(text(item));
        ops.push(text_with("\n", vec![Attribute::List(ListType::Ordered)]));
    }
    let elems = doc(ops).to_elements().unwrap();
    assert_eq!(texts(&elems), vec!["1. one", "2. two", "3. three", "4. four", ""]);
}

#[test]
fn ordered_run_restarts_after_plain_line() {
    let ordered = || text_with("\n", vec![Attribute::List(ListType::Ordered)]);
    let ops = vec![
        text("a"),
        ordered(),
        text("b"),
        ordered(),
        text("plain"),
        text("\n"),
        text("c"),
        ordered(),
        text("d"),
        ordered(),
    ];
    let elems = doc(ops).to_elements().unwrap();
    assert_eq!(texts(&elems), vec!["1. a", "2. b", "plain", "1. c", "2. d", ""]);
}

#[test]
fn bullet_items_get_a_bullet() {
    let bullet = || text_with("\n", vec![Attribute::List(ListType::Bullet)]);
    let ops = vec![text("x"), bullet(), text("y"), bullet()];
    let elems = doc(ops).to_elements().unwrap();
    assert_eq!(texts(&elems), vec!["\u{2022} x", "\u{2022} y", ""]);
}

#[test]
fn bold_and_italic_style_own_text() {
    let ops = vec![
        text("plain\n"),
        text_with("strong\n", vec![Attribute::Bold(true), Attribute::Italic(false)]),
        text_with("slanted", vec![Attribute::Italic(true), Attribute::Bold(false)]),
    ];
    let elems = doc(ops).to_elements().unwrap();
    assert_eq!(texts(&elems), vec!["plain", "strong", "slanted"]);
    // The first line of an insert joins the open run and keeps its style.
    assert!(!style(&elems[1]).bold);
    assert!(style(&elems[2]).bold && !style(&elems[2]).italic);
}

#[test]
fn deletes_and_retains_make_nothing() {
    let ops = vec![
        Op { change: Change::Delete(DeltaType::String("gone".to_string())), attributes: None },
        text("kept"),
        Op {
            change: Change::Retain(DeltaType::Image(Image { image: "bad".to_string() })),
            attributes: None,
        },
    ];
    let pdf = doc(ops);
    assert_eq!(texts(&pdf.to_elements().unwrap()), vec!["kept"]);
    assert_eq!(pdf.to_string(), "kept");
}

#[test]
fn image_resolves_under_directory() {
    assert_eq!(
        resolve_image("https://example.com/a/b/pic.png", &Some("./images".to_string())),
        Ok("./images/pic.png".to_string())
    );
    assert_eq!(
        resolve_image("https://example.com/a/b/pic.png", &None),
        Err(DeltaPdfError::ImagePathNotSet)
    );
    assert_eq!(
        resolve_image("https://example.com", &Some("./images".to_string())),
        Err(DeltaPdfError::ImageUrlError)
    );
}

#[test]
fn image_name_drops_query_and_fragment() {
    assert_eq!(
        resolve_image("https://example.com/p/photo.jpg?size=2#top", &Some("dir/".to_string())),
        Ok("dir/photo.jpg".to_string())
    );
    assert_eq!(
        resolve_image("https://example.com/photo.jpg", &Some(String::new())),
        Ok("photo.jpg".to_string())
    );
}

#[test]
fn image_url_errors() {
    let dir = Some("d".to_string());
    assert_eq!(resolve_image("not a url", &dir), Err(DeltaPdfError::ImageUrlError));
    assert_eq!(resolve_image("mailto:someone@example.com", &dir), Err(DeltaPdfError::ImageUrlError));
    assert_eq!(resolve_image("https://example.com/dir/", &dir), Err(DeltaPdfError::ImageUrlError));
    assert_eq!(resolve_image("https://example.com", &None), Err(DeltaPdfError::ImageUrlError));
}

#[test]
fn image_closes_the_open_run() {
    let mut pdf = doc(vec![text("before"), image("https://example.com/i.png"), text("after")]);
    pdf.set_image_dir("imgs".to_string());
    let elems = pdf.to_elements().unwrap();
    assert_eq!(texts(&elems), vec!["before", "[image imgs/i.png]", "after"]);
}

#[test]
fn image_errors_end_the_conversion() {
    let pdf = doc(vec![text("a"), image("https://example.com/i.png")]);
    assert_eq!(pdf.to_elements().unwrap_err(), DeltaPdfError::ImagePathNotSet);
    let mut pdf = doc(vec![image("https://example.com"), image("https://example.com/i.png")]);
    pdf.set_image_dir("x".to_string());
    assert_eq!(pdf.to_elements().unwrap_err(), DeltaPdfError::ImageUrlError);
}

#[test]
fn heading_after_image_is_ignored() {
    let mut pdf = doc(vec![image("https://example.com/i.png"), text_with("\n", vec![Attribute::Header(1)])]);
    pdf.set_image_dir("x".to_string());
    let elems = pdf.to_elements().unwrap();
    assert_eq!(texts(&elems), vec!["[image x/i.png]", "", ""]);
}

#[test]
fn to_string_concatenates_inserted_text() {
    let pdf = doc(vec![
        text("Hello "),
        image("https://example.com/i.png"),
        text_with("world\n", vec![Attribute::Bold(true)]),
    ]);
    assert_eq!(pdf.to_string(), "Hello world\n");
}

#[test]
fn delta_extend_appends_ops() {
    let mut a = Delta::new();
    a.push(text("x"));
    let mut b = Delta::new();
    b.push(text("y"));
    b.push(text("z"));
    a.extend(b);
    assert_eq!(a.ops.len(), 3);
    assert_eq!(DeltaPdf::new(a).to_string(), "xyz");
}

#[test]
fn error_messages() {
    assert_eq!(DeltaPdfError::ImageUrlError.message(), "The image url could not be parsed");
    assert_eq!(
        DeltaPdfError::ImagePathNotSet.message(),
        "Parsed Delta had an image but the image directory is not set."
    );
}

#[test]
fn ordered_run_passes_ten() {
    let mut ops = Vec::new();
    for k in 0..12 {
        ops.push(text(&format!("item{}", k)));
        ops.push(text_with("\n", vec![Attribute::List(ListType::Ordered)]));
    }
    let elems = doc(ops).to_elements().unwrap();
    let mut expected: Vec<String> = (0..12).map(|k| format!("{}. item{}", k + 1, k)).collect();
    expected.push(String::new());
    assert_eq!(texts(&elems), expected);
}

#[test]
fn ordered_after_image_restarts() {
    let mut pdf = doc(vec![
        text("a"),
        text_with("\n", vec![Attribute::List(ListType::Ordered)]),
        image("https://example.com/i.png"),
        text_with("\n", vec![Attribute::List(ListType::Ordered)]),
        text("b"),
        text_with("\n", vec![Attribute::List(ListType::Ordered)]),
    ]);
    pdf.set_image_dir("d".to_string());
    let elems = doc_elements(&pdf);
    // A list attribute after an image has no text to prefix, and the empty
    // line it leaves breaks the run.
    assert_eq!(texts(&elems), vec!["1. a", "", "[image d/i.png]", "", "1. b", ""]);
}

fn doc_elements(pdf: &DeltaPdf) -> Vec<PdfElement> {
    pdf.to_elements().unwrap()
}
