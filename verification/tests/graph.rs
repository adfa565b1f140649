use querykey_server::graph::link_ntriples;
use querykey_server::vault::LinkEdge;

#[test]
fn emits_edge_and_dangling_label_with_escaping() {
    let nt = link_ntriples(&[
        LinkEdge {
            from_kind: "note".into(),
            from_id: "salon".into(),
            predicate: "knows".into(),
            to_kind: "person".into(),
            to_id: "ada-lovelace".into(),
            to_label: "Ada".into(),
            resolved: true,
        },
        LinkEdge {
            from_kind: "task".into(),
            from_id: "t1".into(),
            predicate: "references".into(),
            to_kind: "thing".into(),
            to_id: "babbage".into(),
            to_label: "Babbage \"Engine\"".into(),
            resolved: false,
        },
    ]);
    assert!(nt.contains(
        "<http://querykey.dev/ns/note/salon> \
         <http://querykey.dev/ns/knows> \
         <http://querykey.dev/ns/person/ada-lovelace> ."
    ));
    // Dangling target carries a label literal, quotes escaped.
    assert!(nt.contains(
        "<http://querykey.dev/ns/thing/babbage> \
         <http://querykey.dev/ns/label> \"Babbage \\\"Engine\\\"\" ."
    ));
}

#[test]
fn spaces_in_ids_and_backslashes_in_labels() {
    let nt = link_ntriples(&[LinkEdge {
        from_kind: "note".into(),
        from_id: "my note".into(),
        predicate: "references".into(),
        to_kind: "thing".into(),
        to_id: "a b".into(),
        to_label: "a\\b".into(),
        resolved: false,
    }]);
    assert_eq!(
        nt,
        "<http://querykey.dev/ns/note/my%20note> <http://querykey.dev/ns/references> \
         <http://querykey.dev/ns/thing/a%20b> .\n\
         <http://querykey.dev/ns/thing/a%20b> <http://querykey.dev/ns/label> \"a\\\\b\" .\n"
    );
    assert_eq!(link_ntriples(&[]), "");
}
