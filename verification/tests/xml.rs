use transit_radar::xml::XmlText;

#[test]
fn self_closing() {
    let mut x = XmlText::new();
    x.start_tag("tag");
    x.self_close();
    assert_eq!(x.into_string(), r#"<tag />"#);
}

#[test]
fn self_closing_attribute() {
    let mut x = XmlText::new();
    x.start_tag("tag");
    x.attr("att", "val");
    x.self_close();
    assert_eq!(x.into_string(), r#"<tag att="val" />"#);
}

#[test]
fn self_closing_attributes() {
    let mut x = XmlText::new();
    x.start_tag("tag");
    x.attr("att", "val");
    x.attr("att2", "val2");
    x.self_close();
    assert_eq!(x.into_string(), r#"<tag att="val" att2="val2" />"#);
}

#[test]
fn literal_attribute() {
    let mut x = XmlText::new();
    x.start_tag("tag");
    x.attr("att", "val");
    x.self_close();
    assert_eq!(x.into_string(), r#"<tag att="val" />"#);
}

#[test]
fn self_closing_hyphenated_attribute() {
    let mut x = XmlText::new();
    x.start_tag("tag");
    x.attr("the-att", "val");
    x.self_close();
    assert_eq!(x.into_string(), r#"<tag the-att="val" />"#);
}

#[test]
fn literal_hyphenated_attribute() {
    let mut x = XmlText::new();
    x.start_tag("tag");
    x.attr("the-att", "val");
    x.self_close();
    assert_eq!(x.into_string(), r#"<tag the-att="val" />"#);
}

#[test]
fn comma_separated_attribute() {
    let list = &[1, 2, 3];
    let mut x = XmlText::new();
    x.start_tag("tag");
    x.attr_list("att", list);
    x.self_close();
    assert_eq!(x.into_string(), r#"<tag att="1,2,3" />"#);
}

#[test]
fn text_containing() {
    let mut x = XmlText::new();
    x.start_tag("tag");
    x.end_start_tag();
    x.text("text");
    x.end_tag("tag");
    assert_eq!(x.into_string(), r#"<tag>text</tag>"#);
}

#[test]
fn text_literal_containing() {
    let mut x = XmlText::new();
    x.start_tag("tag");
    x.end_start_tag();
    x.text("text");
    x.end_tag("tag");
    assert_eq!(x.into_string(), r#"<tag>text</tag>"#);
}

#[test]
fn element_containing() {
    let mut x = XmlText::new();
    x.start_tag("tag");
    x.end_start_tag();
    x.start_tag("inner");
    x.self_close();
    x.end_tag("tag");
    assert_eq!(x.into_string(), r#"<tag><inner /></tag>"#);
}

#[test]
fn signed_and_empty_lists() {
    let mut x = XmlText::new();
    x.start_tag("path");
    x.attr_list("d", &[-12, 0, i64::MIN]);
    x.attr_list("e", &[]);
    x.self_close();
    assert_eq!(x.into_string(), r#"<path d="-12,0,-9223372036854775808" e="" />"#);
}

#[test]
fn document_line() {
    let mut x = XmlText::new();
    x.start_tag("svg");
    x.end_start_tag();
    assert_eq!(x.into_line(), "<svg>\n");
}
