use mtml_parser::parse;
use mtml_parser::serialize;
use mtml_parser::serializer::{FunctionTagStyle, Options};

const INPUT: &str = r#"
<html>
  <body>
    <mt:Entries    limit="10">
      <mtEntryTitle encode_html='1'/>
    </mt:Entries>
  </body>
</html>"#;

#[test]
fn serializer_test_serialize() {
    let root = parse(INPUT).unwrap();
    let serialized = serialize(root, None);
    assert_eq!(
        serialized,
        r#"
<html>
  <body>
    <mt:Entries limit="10">
      <$mt:EntryTitle encode_html="1"$>
    </mt:Entries>
  </body>
</html>"#
    )
}

#[test]
fn test_serialize_self_closing() {
    let root = parse(INPUT).unwrap();
    let serialized = serialize(
        root,
        Some(Options {
            prefix: "mt:".to_string(),
            function_tag_style: FunctionTagStyle::SelfClosing,
        }),
    );
    assert_eq!(
        serialized,
        r#"
<html>
  <body>
    <mt:Entries limit="10">
      <mt:EntryTitle encode_html="1"/>
    </mt:Entries>
  </body>
</html>"#
    )
}

#[test]
fn test_serialize_prefix() {
    let root = parse(INPUT).unwrap();
    let serialized = serialize(
        root,
        Some(Options {
            prefix: "MT".to_string(),
            function_tag_style: FunctionTagStyle::Dollar,
        }),
    );
    assert_eq!(
        serialized,
        r#"
<html>
  <body>
    <MTEntries limit="10">
      <$MTEntryTitle encode_html="1"$>
    </MTEntries>
  </body>
</html>"#
    )
}

#[test]
fn test_serialize_single_quote() {
    let root = parse(
        r#"
<html>
  <body>
    <mt:Entries limit="10">
      <mtEntryTitle replace='"',"'"/>
    </mt:Entries>
  </body>
</html>"#,
    )
    .unwrap();
    let serialized = serialize(
        root,
        Some(Options {
            prefix: "mt:".to_string(),
            function_tag_style: FunctionTagStyle::Dollar,
        }),
    );
    assert_eq!(
        serialized,
        r#"
<html>
  <body>
    <mt:Entries limit="10">
      <$mt:EntryTitle replace='"',"'"$>
    </mt:Entries>
  </body>
</html>"#
    )
}
