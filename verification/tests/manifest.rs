use guest_abi::codec::parse_document;
use guest_abi::manifest::manifest_bytes;
use guest_abi::manifest::LibrarySchema;
use guest_abi::manifest::RouteExport;
use guest_abi::value::Value;

fn schema(id: &str, version: &str, dependencies: Vec<&str>) -> LibrarySchema {
    LibrarySchema {
        id: id.to_string(),
        version: version.to_string(),
        dependencies: dependencies.into_iter().map(|d| d.to_string()).collect(),
    }
}

#[test]
fn manifest_renders_schema_and_routes() {
    let s = schema("/a", "0.1.0", vec!["/b"]);
    let routes = [RouteExport::new("/hello", "hello")];
    let bytes = manifest_bytes(&s, &routes);
    assert_eq!(
        bytes,
        b"{\"schema\":{\"id\":\"/a\",\"version\":\"0.1.0\",\"dependencies\":[\"/b\"]},\
           \"routes\":[{\"path\":\"/hello\",\"export\":\"hello\"}]}"
            .to_vec()
    );
}

#[test]
fn manifest_decodes_to_the_expected_document() {
    let s = schema("/a", "0.1.0", vec!["/b"]);
    let routes = [RouteExport::new("/hello", "hello")];
    let bytes = manifest_bytes(&s, &routes);
    let doc = parse_document(&bytes).unwrap();
    let expected = Value::Object(vec![
        (
            b"schema".to_vec(),
            Value::Object(vec![
                (b"id".to_vec(), Value::Str(b"/a".to_vec())),
                (b"version".to_vec(), Value::Str(b"0.1.0".to_vec())),
                (
                    b"dependencies".to_vec(),
                    Value::List(vec![Value::Str(b"/b".to_vec())]),
                ),
            ]),
        ),
        (
            b"routes".to_vec(),
            Value::List(vec![Value::Object(vec![
                (b"path".to_vec(), Value::Str(b"/hello".to_vec())),
                (b"export".to_vec(), Value::Str(b"hello".to_vec())),
            ])]),
        ),
    ]);
    assert_eq!(doc, expected);
}

#[test]
fn manifest_with_no_routes_or_dependencies() {
    let s = schema("/solo", "2.0.0", vec![]);
    let bytes = manifest_bytes(&s, &[]);
    assert_eq!(
        bytes,
        b"{\"schema\":{\"id\":\"/solo\",\"version\":\"2.0.0\",\"dependencies\":[]},\"routes\":[]}"
            .to_vec()
    );
}

#[test]
fn route_export_keeps_its_fields() {
    let r = RouteExport::new("/inc", "inc_export");
    assert_eq!(r.path, "/inc");
    assert_eq!(r.export, "inc_export");
}
