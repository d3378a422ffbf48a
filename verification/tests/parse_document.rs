use mysqldump_quick_xml::parse::read_attributes;
use mysqldump_quick_xml::{mysqldump_quick_xml, ErrorKind, ParseError, Schema, TagAttribute};

fn schema(names: &[&str]) -> Schema {
    Schema::new(names.iter().map(|n| n.as_bytes().to_vec()).collect())
}

fn row(values: &[&str]) -> Vec<String> {
    values.iter().map(|v| v.to_string()).collect()
}

fn parse(names: &[&str], xml: &str) -> Result<Vec<Vec<String>>, ParseError> {
    mysqldump_quick_xml(&schema(names), xml)
}

#[test]
fn two_rows_second_without_name() {
    let xml = "<resultset><row><field name=\"id\">1</field><field name=\"name\">Alice</field></row><row><field name=\"id\">2</field></row></resultset>";
    let rows = parse(&["id", "name"], xml).unwrap();
    assert_eq!(rows, vec![row(&["1", "Alice"]), row(&["2", ""])]);
}

#[test]
fn one_row_per_row_element_in_document_order() {
    let xml = "<resultset>\
        <row><field name=\"id\">c</field></row>\
        <row><field name=\"id\">a</field></row>\
        <row></row>\
        <row><field name=\"id\">b</field></row>\
        </resultset>";
    let rows = parse(&["id"], xml).unwrap();
    assert_eq!(rows, vec![row(&["c"]), row(&["a"]), row(&[""]), row(&["b"])]);
}

#[test]
fn empty_document_gives_no_rows() {
    assert_eq!(parse(&["id"], "").unwrap(), Vec::<Vec<String>>::new());
    assert_eq!(parse(&["id"], "<resultset></resultset>").unwrap(), Vec::<Vec<String>>::new());
}

#[test]
fn empty_schema_gives_empty_rows() {
    let xml = "<resultset><row><field name=\"id\">1</field></row><row></row></resultset>";
    assert_eq!(parse(&[], xml).unwrap(), vec![row(&[]), row(&[])]);
}

#[test]
fn absent_field_is_empty_string() {
    let xml = "<resultset><row><field name=\"b\">2</field></row></resultset>";
    assert_eq!(parse(&["a", "b", "c"], xml).unwrap(), vec![row(&["", "2", ""])]);
}

#[test]
fn values_do_not_leak_into_the_next_row() {
    let xml = "<resultset><row><field name=\"a\">1</field><field name=\"b\">2</field></row>\
        <row><field name=\"b\">3</field></row></resultset>";
    assert_eq!(parse(&["a", "b"], xml).unwrap(), vec![row(&["1", "2"]), row(&["", "3"])]);
}

#[test]
fn field_order_in_the_source_does_not_matter() {
    let one = "<resultset><row><field name=\"id\">1</field><field name=\"name\">Alice</field></row></resultset>";
    let other = "<resultset><row><field name=\"name\">Alice</field><field name=\"id\">1</field></row></resultset>";
    let expected = vec![row(&["1", "Alice"])];
    assert_eq!(parse(&["id", "name"], one).unwrap(), expected);
    assert_eq!(parse(&["id", "name"], other).unwrap(), expected);
}

#[test]
fn schema_order_decides_the_order_within_a_row() {
    let xml = "<resultset><row><field name=\"id\">1</field><field name=\"name\">Alice</field></row></resultset>";
    assert_eq!(parse(&["name", "id"], xml).unwrap(), vec![row(&["Alice", "1"])]);
}

#[test]
fn unknown_fields_are_ignored() {
    let with = "<resultset><row><field name=\"x\">9</field><field name=\"id\">1</field><field name=\"y\">8</field></row></resultset>";
    let without = "<resultset><row><field name=\"id\">1</field></row></resultset>";
    assert_eq!(parse(&["id"], with).unwrap(), vec![row(&["1"])]);
    assert_eq!(parse(&["id"], with).unwrap(), parse(&["id"], without).unwrap());
}

#[test]
fn last_text_node_wins() {
    let xml = "<resultset><row><field name=\"id\">first<!-- c -->second</field></row></resultset>";
    assert_eq!(parse(&["id"], xml).unwrap(), vec![row(&["second"])]);
}

#[test]
fn text_split_by_an_inner_element_keeps_the_last_part() {
    let xml = "<resultset><row><field name=\"id\">a<b>b</b>c</field></row></resultset>";
    assert_eq!(parse(&["id"], xml).unwrap(), vec![row(&["c"])]);
}

#[test]
fn repeated_field_keeps_the_later_value() {
    let xml = "<resultset><row><field name=\"id\">1</field><field name=\"id\">2</field></row></resultset>";
    assert_eq!(parse(&["id"], xml).unwrap(), vec![row(&["2"])]);
}

#[test]
fn field_without_name_attribute_contributes_nothing() {
    let xml = "<resultset><row><field>orphan</field><field name=\"id\">1</field><field other=\"id\">2</field></row></resultset>";
    assert_eq!(parse(&["id"], xml).unwrap(), vec![row(&["1"])]);
}

#[test]
fn field_without_name_attribute_may_hold_any_text() {
    let xml = "<resultset><row><field>&bogus;</field></row></resultset>";
    assert_eq!(parse(&["id"], xml).unwrap(), vec![row(&[""])]);
}

#[test]
fn field_without_content_is_empty() {
    let xml = "<resultset><row><field name=\"id\"></field><field name=\"name\"/></row></resultset>";
    assert_eq!(parse(&["id", "name"], xml).unwrap(), vec![row(&["", ""])]);
}

#[test]
fn text_is_trimmed_and_blank_text_is_no_text() {
    let xml = "<resultset>\n  <row>\n    <field name=\"id\">  7 \n</field>\n    <field name=\"name\">   </field>\n  </row>\n</resultset>\n";
    assert_eq!(parse(&["id", "name"], xml).unwrap(), vec![row(&["7", ""])]);
}

#[test]
fn text_is_unescaped() {
    let xml = "<resultset><row><field name=\"id\">&lt;a&gt; &amp; &#x41;&#66;&quot;&apos;</field></row></resultset>";
    assert_eq!(parse(&["id"], xml).unwrap(), vec![row(&["<a> & AB\"'"])]);
}

#[test]
fn text_outside_fields_is_dropped() {
    let xml = "<resultset>x<row>y<field name=\"id\">1</field>z</row>w</resultset>";
    assert_eq!(parse(&["id"], xml).unwrap(), vec![row(&["1"])]);
}

#[test]
fn name_is_matched_as_raw_bytes() {
    let xml = "<resultset><row><field name=\"a&amp;b\">1</field><field name=\"ID\">2</field></row></resultset>";
    assert_eq!(parse(&["a&amp;b", "id"], xml).unwrap(), vec![row(&["1", ""])]);
    assert_eq!(parse(&["a&b", "ID"], xml).unwrap(), vec![row(&["", "2"])]);
}

#[test]
fn first_name_attribute_decides() {
    let xml = "<resultset><row><field name='id' name='other'>1</field></row></resultset>";
    assert_eq!(parse(&["id", "other"], xml).unwrap(), vec![row(&["1", ""])]);
}

#[test]
fn duplicated_schema_name_resolves_to_the_first() {
    let xml = "<resultset><row><field name=\"id\">1</field></row></resultset>";
    assert_eq!(parse(&["id", "id"], xml).unwrap(), vec![row(&["1", ""])]);
}

#[test]
fn unfinished_row_is_not_emitted() {
    let xml = "<resultset><row><field name=\"id\">1</field></row><row><field name=\"id\">2</field>";
    assert_eq!(parse(&["id"], xml).unwrap(), vec![row(&["1"])]);
}

#[test]
fn unknown_field_nested_in_a_known_one_closes_it() {
    let xml = "<resultset><row><field name=\"id\">1<field name=\"zz\">2</field>3</field></row></resultset>";
    assert_eq!(parse(&["id"], xml).unwrap(), vec![row(&["1"])]);
}

#[test]
fn mismatched_end_tag_fails() {
    let error = parse(&["id"], "<a></b>").unwrap_err();
    assert_eq!(error, ParseError { offset: 5, kind: ErrorKind::MalformedMarkup });
}

#[test]
fn malformed_markup_discards_earlier_rows() {
    let xml = "<resultset><row><field name=\"id\">1</field></row><row></field></resultset>";
    let outcome = parse(&["id"], xml);
    assert!(outcome.is_err());
    assert_eq!(outcome.unwrap_err().kind, ErrorKind::MalformedMarkup);
}

#[test]
fn unterminated_comment_fails() {
    let outcome = parse(&["id"], "<resultset><row></row><!-- never closed");
    assert_eq!(outcome.unwrap_err().kind, ErrorKind::MalformedMarkup);
}

#[test]
fn unreadable_attribute_before_the_name_fails() {
    let xml = "<resultset><row><field broken name=\"id\">1</field></row></resultset>";
    let error = parse(&["id"], xml).unwrap_err();
    assert_eq!(error, ParseError { offset: 40, kind: ErrorKind::MalformedMarkup });
}

#[test]
fn unreadable_attribute_after_the_name_is_not_looked_at() {
    let xml = "<resultset><row><field name=\"id\" broken>1</field></row></resultset>";
    assert_eq!(parse(&["id"], xml).unwrap(), vec![row(&["1"])]);
}

#[test]
fn unreadable_attribute_on_another_element_is_not_looked_at() {
    let xml = "<resultset broken><row><field name=\"id\">1</field></row></resultset>";
    assert_eq!(parse(&["id"], xml).unwrap(), vec![row(&["1"])]);
}

#[test]
fn undecodable_text_in_a_known_field_fails() {
    let xml = "<resultset><row><field name=\"id\">&bogus;</field></row></resultset>";
    let error = parse(&["id"], xml).unwrap_err();
    assert_eq!(error, ParseError { offset: 40, kind: ErrorKind::InvalidText });
}

#[test]
fn undecodable_text_in_an_unknown_field_is_dropped() {
    let xml = "<resultset><row><field name=\"zz\">&bogus;</field><field name=\"id\">1</field></row></resultset>";
    assert_eq!(parse(&["id"], xml).unwrap(), vec![row(&["1"])]);
}

#[test]
fn attributes_are_read_in_document_order() {
    let content = b"field name=\"id\" xsi:nil = 'true'";
    let attributes = read_attributes(content, 5);
    assert_eq!(
        attributes,
        vec![
            TagAttribute::Pair { key: b"name".to_vec(), value: b"id".to_vec() },
            TagAttribute::Pair { key: b"xsi:nil".to_vec(), value: b"true".to_vec() },
        ]
    );
}

#[test]
fn attributes_stop_at_the_first_unreadable_one() {
    let content = b"field a=\"1\" b c=\"3\"";
    let attributes = read_attributes(content, 5);
    assert_eq!(
        attributes,
        vec![
            TagAttribute::Pair { key: b"a".to_vec(), value: b"1".to_vec() },
            TagAttribute::Malformed,
        ]
    );
}

#[test]
fn tag_without_attributes_has_none() {
    assert_eq!(read_attributes(b"row", 3), Vec::<TagAttribute>::new());
    assert_eq!(read_attributes(b"row", 7), Vec::<TagAttribute>::new());
}
