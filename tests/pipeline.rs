use ggen::graph::{
    assemble, class_entries, class_entry, extract_classes, extract_properties, is_ontology_file_name,
    is_reserved_iri, load_ontology, property_entries, property_query, CompileError, RdfTerm,
};
use ggen::order::compare;
use ggen::render::{output_file_name, preview, preview_of_lines, PREVIEW_LINES};
use ggen::schema::{discover, property_descriptor, ClassDescriptor, Entry};
use ggen::text::{derive_name, derive_trimmed_name, is_iri_term, str_contains};
use ggen::types::map_xsd_type;

const PREFIXES: &str = "@prefix ex: <http://example.org/> .
@prefix rdfs: <http://www.w3.org/2000/01/rdf-schema#> .
@prefix owl: <http://www.w3.org/2002/07/owl#> .
@prefix xsd: <http://www.w3.org/2001/XMLSchema#> .
";

fn doc(body: &str) -> String {
    format!("{}{}", PREFIXES, body)
}

fn schema_of(files: Vec<(&str, String)>) -> Vec<ClassDescriptor> {
    let files: Vec<(String, String)> = files.into_iter().map(|(p, t)| (p.to_string(), t)).collect();
    let store = load_ontology(&files).ok().expect("documents load");
    extract_classes(&store).ok().expect("queries run")
}

fn triple(a: &str, b: &str, c: &str) -> (String, String, String) {
    (a.to_string(), b.to_string(), c.to_string())
}

fn entry(id: &str, comment: &str) -> Entry {
    Entry { id: id.to_string(), comment: comment.to_string(), range: None }
}

#[test]
fn name_after_hash_or_slash() {
    assert_eq!(derive_name("http://example.org/ns#Foo", "Unknown"), "Foo");
    assert_eq!(derive_name("http://example.org/Foo", "Unknown"), "Foo");
    assert_eq!(derive_name("http://example.org/a#b/Foo", "Unknown"), "Foo");
    assert_eq!(derive_name("urn:x:y/z#Foo", "Unknown"), "Foo");
}

#[test]
fn name_falls_back_without_separator() {
    assert_eq!(derive_name("Person", "Unknown"), "Unknown");
    assert_eq!(derive_name("http://example.org/", "Unknown"), "Unknown");
    assert_eq!(derive_name("", "unknown"), "unknown");
}

#[test]
fn substring_search() {
    assert!(str_contains("http://www.w3.org/2001/XMLSchema#string", "string"));
    assert!(str_contains("abc", ""));
    assert!(!str_contains("str", "string"));
    assert!(!str_contains("", "a"));
    assert!(str_contains("aab", "ab"));
}

#[test]
fn string_ranges_map_to_string() {
    let s = triple("String", "str", "string");
    assert_eq!(map_xsd_type("http://www.w3.org/2001/XMLSchema#string"), s);
    assert_eq!(map_xsd_type("xsd:string"), s);
    assert_eq!(map_xsd_type("http://EXAMPLE.org/normalizedstring"), s);
    assert_eq!(map_xsd_type("MyINTEGERstring"), s);
}

#[test]
fn integer_ranges() {
    let i = triple("i64", "int", "number");
    assert_eq!(map_xsd_type("http://www.w3.org/2001/XMLSchema#integer"), i);
    assert_eq!(map_xsd_type("http://www.w3.org/2001/XMLSchema#int"), i);
    assert_eq!(map_xsd_type("http://www.w3.org/2001/XMLSchema#nonNegativeInteger"), triple("nonNegativeInteger", "nonNegativeInteger", "nonNegativeInteger"));
}

#[test]
fn other_primitive_ranges() {
    assert_eq!(map_xsd_type("http://www.w3.org/2001/XMLSchema#boolean"), triple("bool", "bool", "boolean"));
    assert_eq!(map_xsd_type("http://www.w3.org/2001/XMLSchema#dateTime"), triple("DateTime<Utc>", "datetime", "Date"));
    assert_eq!(map_xsd_type("http://www.w3.org/2001/XMLSchema#decimal"), triple("f64", "float", "number"));
    assert_eq!(map_xsd_type("http://www.w3.org/2001/XMLSchema#float"), triple("f64", "float", "number"));
}

#[test]
fn reference_ranges_use_short_name() {
    assert_eq!(map_xsd_type("http://example.org/Address"), triple("Address", "Address", "Address"));
    assert_eq!(map_xsd_type("http://example.org/ns#Order"), triple("Order", "Order", "Order"));
    assert_eq!(map_xsd_type("Thing"), triple("String", "String", "String"));
}

#[test]
fn compare_orders_by_code_point() {
    assert_eq!(compare("a", "b"), -1);
    assert_eq!(compare("b", "a"), 1);
    assert_eq!(compare("ab", "ab"), 0);
    assert_eq!(compare("ab", "abc"), -1);
    assert_eq!(compare("Z", "a"), -1);
    assert_eq!(compare("", ""), 0);
}

#[test]
fn discovery_sorts_and_keeps_least() {
    let rows = vec![entry("http://e/C", "c"), entry("http://e/A", "a1"), entry("http://e/B", "b"), entry("http://e/A", "a2")];
    let out = discover(&rows);
    let ids: Vec<&str> = out.iter().map(|e| e.id.as_str()).collect();
    assert_eq!(ids, vec!["http://e/A", "http://e/B", "http://e/C"]);
    assert_eq!(out[0].comment, "a1");
    assert_eq!(discover(&Vec::new()).len(), 0);
}

#[test]
fn discovery_twice_is_identical() {
    let rows = vec![entry("http://e/Z", "z"), entry("http://e/M", "m"), entry("http://e/M", "n")];
    let once = discover(&rows);
    let again = discover(&rows);
    let twice = discover(&once);
    for other in [&again, &twice] {
        assert_eq!(other.len(), once.len());
        for (x, y) in other.iter().zip(once.iter()) {
            assert_eq!(x.id, y.id);
            assert_eq!(x.comment, y.comment);
        }
    }
}

#[test]
fn discovery_ignores_arrival_order() {
    let a = discover(&vec![entry("http://e/B", "b"), entry("http://e/A", "a"), entry("http://e/C", "c")]);
    let b = discover(&vec![entry("http://e/C", "c"), entry("http://e/B", "b"), entry("http://e/A", "a")]);
    let ia: Vec<&str> = a.iter().map(|e| e.id.as_str()).collect();
    let ib: Vec<&str> = b.iter().map(|e| e.id.as_str()).collect();
    assert_eq!(ia, ib);
}

#[test]
fn reserved_and_blank_classes_are_skipped() {
    let rdfs = RdfTerm::Iri("http://www.w3.org/2000/01/rdf-schema#Class".to_string());
    assert!(class_entry(Some(rdfs), None).is_none());
    assert!(class_entry(Some(RdfTerm::Blank("b0".to_string())), None).is_none());
    assert!(class_entry(None, None).is_none());
    let e = class_entry(Some(RdfTerm::Iri("http://example.org/Person".to_string())), Some(RdfTerm::Literal("A person".to_string()))).unwrap();
    assert_eq!(e.id, "http://example.org/Person");
    assert_eq!(e.comment, "A person");
}

#[test]
fn property_without_range_is_string() {
    let p = property_descriptor(&entry("http://example.org/nickname", ""));
    assert_eq!(p.name, "nickname");
    assert_eq!((p.rust_type, p.python_type, p.typescript_type), triple("String", "str", "string"));
    assert!(!p.optional);
}

#[test]
fn single_class_scenario() {
    let text = doc("ex:Person a rdfs:Class ; rdfs:comment \"A person\" .
ex:name rdfs:domain ex:Person ; rdfs:range xsd:string .
");
    let classes = schema_of(vec![("person.ttl", text)]);
    assert_eq!(classes.len(), 1);
    let c = &classes[0];
    assert_eq!(c.name, "Person");
    assert_eq!(c.comment, "A person");
    assert_eq!(c.properties.len(), 1);
    let p = &c.properties[0];
    assert_eq!(p.name, "name");
    assert_eq!(p.comment, "");
    assert_eq!(p.rust_type, "String");
    assert_eq!(p.python_type, "str");
    assert_eq!(p.typescript_type, "string");
    assert!(!p.optional);
}

#[test]
fn integer_property_scenario() {
    let text = doc("ex:Account a owl:Class .
ex:balance rdfs:domain ex:Account ; rdfs:range xsd:integer ; rdfs:comment \"Balance\" .
");
    let classes = schema_of(vec![("account.ttl", text)]);
    let p = &classes[0].properties[0];
    assert_eq!(p.name, "balance");
    assert_eq!(p.comment, "Balance");
    assert_eq!((p.rust_type.clone(), p.python_type.clone(), p.typescript_type.clone()), triple("i64", "int", "number"));
}

#[test]
fn empty_directory_scenario() {
    let store = load_ontology(&Vec::new()).ok().expect("empty load succeeds");
    let classes = extract_classes(&store).ok().expect("queries run");
    assert!(classes.is_empty());
}

#[test]
fn reserved_classes_never_appear() {
    let text = doc("rdfs:Resource a rdfs:Class .
owl:Thing a owl:Class .
ex:Car a owl:Class .
");
    let classes = schema_of(vec![("vocab.ttl", text)]);
    let names: Vec<&str> = classes.iter().map(|c| c.name.as_str()).collect();
    assert_eq!(names, vec!["Car"]);
}

#[test]
fn classes_and_properties_sorted_across_files() {
    let first = doc("ex:Zebra a rdfs:Class .
ex:zeta rdfs:domain ex:Zebra .
ex:alpha rdfs:domain ex:Zebra ; rdfs:range ex:Apple .
");
    let second = doc("ex:Apple a owl:Class ; rdfs:comment \"Fruit\" .
ex:Apple a rdfs:Class .
");
    let one = schema_of(vec![("a.ttl", first.clone()), ("b.ttl", second.clone())]);
    let two = schema_of(vec![("b.ttl", second), ("a.ttl", first)]);
    for classes in [&one, &two] {
        let names: Vec<&str> = classes.iter().map(|c| c.name.as_str()).collect();
        assert_eq!(names, vec!["Apple", "Zebra"]);
        assert_eq!(classes[0].comment, "Fruit");
        let props: Vec<&str> = classes[1].properties.iter().map(|p| p.name.as_str()).collect();
        assert_eq!(props, vec!["alpha", "zeta"]);
        assert_eq!(classes[1].properties[0].rust_type, "Apple");
        assert_eq!(classes[1].properties[1].python_type, "str");
    }
}

#[test]
fn malformed_document_names_its_path() {
    let files = vec![
        ("good.ttl".to_string(), doc("ex:A a rdfs:Class .\n")),
        ("bad.ttl".to_string(), "this is not turtle".to_string()),
    ];
    match load_ontology(&files) {
        Err(CompileError::Load(p)) => assert_eq!(p, "bad.ttl"),
        _ => panic!("expected a load error"),
    }
}

#[test]
fn malformed_class_identifier_is_a_query_error() {
    let store = load_ontology(&Vec::new()).ok().unwrap();
    assert!(matches!(extract_properties(&store, "http://e/a> ?x ?y {"), Err(CompileError::Query)));
    assert!(property_query("http://e/A").contains("<http://e/A>"));
}

#[test]
fn dry_run_preview_of_25_lines() {
    let text: Vec<String> = (1..=25).map(|i| format!("line {}", i)).collect();
    let p = preview(&text.join("\n"));
    assert_eq!(p.lines.len(), PREVIEW_LINES);
    assert_eq!(p.lines[0], "line 1");
    assert_eq!(p.lines[19], "line 20");
    assert_eq!(p.more, 5);
    let short = preview_of_lines(&vec!["a".to_string(), "b".to_string()]);
    assert_eq!(short.lines, vec!["a", "b"]);
    assert_eq!(short.more, 0);
    assert_eq!(preview("").lines.len(), 0);
}

#[test]
fn output_names_drop_template_suffix() {
    assert_eq!(output_file_name("models.rs.tera"), "models.rs");
    assert_eq!(output_file_name("python/types.py.tera"), "types.py");
    assert_eq!(output_file_name("a/b/index.ts.tera"), "index.ts");
    assert_eq!(output_file_name(".tera"), ".tera");
}

#[test]
fn only_turtle_files_are_loaded() {
    assert!(is_ontology_file_name("domain.ttl"));
    assert!(is_ontology_file_name("a.b.ttl"));
    assert!(!is_ontology_file_name(".ttl"));
    assert!(!is_ontology_file_name("domain.ttl.bak"));
    assert!(!is_ontology_file_name("ttl"));
    assert!(!is_ontology_file_name("domain.owl"));
}

#[test]
fn bracketed_reference_ranges_are_trimmed() {
    assert_eq!(map_xsd_type("<http://example.org/ns#Foo>"), triple("Foo", "Foo", "Foo"));
    assert_eq!(map_xsd_type("<#Foo>"), triple("Foo", "Foo", "Foo"));
    assert_eq!(map_xsd_type("<http://example.org/>"), triple("String", "String", "String"));
    assert_eq!(derive_trimmed_name("<http://example.org/name>", "unknown"), "name");
    assert_eq!(derive_trimmed_name("http://example.org/>>", "unknown"), "unknown");
}

#[test]
fn reserved_means_the_vocabulary_namespaces() {
    assert!(is_reserved_iri("http://www.w3.org/2002/07/owl#Thing"));
    assert!(is_reserved_iri("http://www.w3.org/2000/01/rdf-schema#Class"));
    assert!(is_reserved_iri("http://www.w3.org/1999/02/22-rdf-syntax-ns#Property"));
    assert!(!is_reserved_iri("http://example.org/www.w3.org#X"));
    assert!(!is_reserved_iri("http://www.w3.org/ns/other#X"));
    let e = class_entry(Some(RdfTerm::Iri("http://example.org/www.w3.org#X".to_string())), None);
    assert_eq!(e.unwrap().id, "http://example.org/www.w3.org#X");
}

#[test]
fn class_rows_become_sorted_entries() {
    let iri = |s: &str| Some(RdfTerm::Iri(s.to_string()));
    let lit = |s: &str| Some(RdfTerm::Literal(s.to_string()));
    let rows = vec![
        (iri("http://e/B"), lit("b")),
        (iri("http://www.w3.org/2002/07/owl#Class"), None),
        (Some(RdfTerm::Blank("x".to_string())), None),
        (iri("http://e/A"), lit("a")),
        (iri("http://e/B"), lit("other")),
    ];
    let out = class_entries(&rows);
    let ids: Vec<&str> = out.iter().map(|e| e.id.as_str()).collect();
    assert_eq!(ids, vec!["http://e/A", "http://e/B"]);
    assert_eq!(out[1].comment, "b");
}

#[test]
fn property_rows_become_sorted_fields() {
    let iri = |s: &str| Some(RdfTerm::Iri(s.to_string()));
    let rows = vec![
        (iri("http://e/z"), None, iri("http://www.w3.org/2001/XMLSchema#boolean")),
        (iri("http://e/a"), Some(RdfTerm::Literal("first".to_string())), None),
        (None, None, None),
    ];
    let out = property_entries(&rows);
    assert_eq!(out.len(), 2);
    assert_eq!(out[0].name, "a");
    assert_eq!(out[0].comment, "first");
    assert_eq!(out[0].rust_type, "String");
    assert_eq!(out[1].name, "z");
    assert_eq!(out[1].typescript_type, "boolean");
}

#[test]
fn assembly_fails_on_first_failed_resolution() {
    let classes = vec![entry("http://e/A", "a"), entry("http://e/B", "")];
    let field = property_descriptor(&entry("http://e/x", ""));
    let ok = assemble(&classes, vec![Ok(vec![field]), Ok(Vec::new())]).ok().unwrap();
    assert_eq!(ok.len(), 2);
    assert_eq!(ok[0].name, "A");
    assert_eq!(ok[0].properties[0].name, "x");
    assert_eq!(ok[1].properties.len(), 0);
    let bad = assemble(&classes, vec![Ok(Vec::new()), Err(CompileError::Query)]);
    assert!(matches!(bad, Err(CompileError::Query)));
}

#[test]
fn unwritable_class_identifiers_are_refused() {
    assert!(is_iri_term("http://example.org/A"));
    assert!(!is_iri_term("http://e/a b"));
    assert!(!is_iri_term("http://e/a>"));
    assert!(!is_iri_term("http://e/{a}"));
    let store = load_ontology(&vec![("a.ttl".to_string(), doc("ex:x rdfs:domain ex:A .\n"))]).ok().unwrap();
    assert!(matches!(extract_properties(&store, "http://example.org/A> ?p ?o . <x"), Err(CompileError::Query)));
    assert_eq!(extract_properties(&store, "http://example.org/A").ok().unwrap().len(), 1);
}

#[test]
fn first_malformed_document_is_named() {
    let files = vec![
        ("one.ttl".to_string(), doc("ex:A a rdfs:Class .\n")),
        ("two.ttl".to_string(), "not turtle at all".to_string()),
        ("three.ttl".to_string(), "also { not".to_string()),
    ];
    match load_ontology(&files) {
        Err(CompileError::Load(p)) => assert_eq!(p, "two.ttl"),
        _ => panic!("expected a load error"),
    }
    let good = vec![("one.ttl".to_string(), doc("ex:A a rdfs:Class .\n"))];
    assert!(load_ontology(&good).is_ok());
}

#[test]
fn repeated_identifiers_ignore_arrival_order() {
    let a = discover(&vec![entry("http://e/A", "zeta"), entry("http://e/B", "b"), entry("http://e/A", "alpha")]);
    let b = discover(&vec![entry("http://e/A", "alpha"), entry("http://e/A", "zeta"), entry("http://e/B", "b")]);
    assert_eq!(a.len(), 2);
    assert_eq!(b.len(), 2);
    for (x, y) in a.iter().zip(b.iter()) {
        assert_eq!(x.id, y.id);
        assert_eq!(x.comment, y.comment);
    }
    assert_eq!(a[0].comment, "alpha");
    let with_range = Entry { id: "http://e/p".to_string(), comment: String::new(), range: Some("http://e/T".to_string()) };
    let kept = discover(&vec![with_range, entry("http://e/p", "")]);
    assert!(kept[0].range.is_none());
}
