use autoforward::hosts::{generate_host_entries, hosts_file, insert_or_replace_entries};

#[test]
fn test_replace_entries() {
    let input = r#"# This is a commentÃ¦Ã¸Ã¥Â¡â„¢Â£Â¢âˆžâˆžÂ§Â¶â€¢ÂªÂ¶Â§âˆžÂ¢Â£ðŸ¦€
### START AUTOFORWARD
127.0.0.1 speil.nais.preprod.local
### END AUTOFORWARD
127.0.0.1 localhost
"#.as_bytes();
    let hosts = generate_host_entries(&vec!["new.nais.preprod.local".to_owned()]);
    let expected = r#"# This is a commentÃ¦Ã¸Ã¥Â¡â„¢Â£Â¢âˆžâˆžÂ§Â¶â€¢ÂªÂ¶Â§âˆžÂ¢Â£ðŸ¦€
### START AUTOFORWARD
127.0.0.1 new.nais.preprod.local
### END AUTOFORWARD
127.0.0.1 localhost
"#;

    assert_eq!(std::str::from_utf8(insert_or_replace_entries(input, &hosts).as_slice()).unwrap(), expected);
}

#[test]
fn append_entries() {
    let input = r#"# This is a commentÃ¦Ã¸Ã¥Â¡â„¢Â£Â¢âˆžâˆžÂ§Â¶â€¢ÂªÂ¶Â§âˆžÂ¢Â£ðŸ¦€
127.0.0.1 localhost
"#.as_bytes();

    let hosts = generate_host_entries(&vec!["new.nais.preprod.local".to_owned()]);

    let expected = r#"# This is a commentÃ¦Ã¸Ã¥Â¡â„¢Â£Â¢âˆžâˆžÂ§Â¶â€¢ÂªÂ¶Â§âˆžÂ¢Â£ðŸ¦€
127.0.0.1 localhost

### START AUTOFORWARD
127.0.0.1 new.nais.preprod.local
### END AUTOFORWARD
"#;
    assert_eq!(std::str::from_utf8(insert_or_replace_entries(input, &hosts).as_slice()).unwrap(), expected);

}

#[test]
fn replacing_twice_is_replacing_once() {
    let hosts = generate_host_entries(&vec!["a.example".to_owned(), "b.example".to_owned()]);
    let inputs: Vec<&[u8]> = vec![
        b"127.0.0.1 localhost\n",
        b"",
        b"x\n### START AUTOFORWARD\nold\n### END AUTOFORWARD\ny\n",
    ];
    for input in inputs {
        let once = insert_or_replace_entries(input, &hosts);
        let twice = insert_or_replace_entries(&once, &hosts);
        assert_eq!(once, twice);
    }
}

#[test]
fn replacement_keeps_bytes_outside_markers() {
    let hosts = generate_host_entries(&vec!["n.example".to_owned()]);
    let input = b"before\n### START AUTOFORWARD\n127.0.0.1 o.example\n### END AUTOFORWARD after\n";
    let out = insert_or_replace_entries(input, &hosts);
    assert_eq!(
        std::str::from_utf8(&out).unwrap(),
        "before\n### START AUTOFORWARD\n127.0.0.1 n.example\n### END AUTOFORWARD after\n"
    );
}

#[test]
fn append_to_empty_input() {
    let out = insert_or_replace_entries(b"", b"");
    assert_eq!(std::str::from_utf8(&out).unwrap(), "\n### START AUTOFORWARD\n### END AUTOFORWARD\n");
}

#[test]
fn header_without_footer_appends() {
    let hosts = generate_host_entries(&vec!["h".to_owned()]);
    let out = insert_or_replace_entries(b"### START AUTOFORWARD\n", &hosts);
    assert_eq!(
        std::str::from_utf8(&out).unwrap(),
        "### START AUTOFORWARD\n\n### START AUTOFORWARD\n127.0.0.1 h\n### END AUTOFORWARD\n"
    );
}

#[test]
fn host_entries_one_line_each() {
    let out = generate_host_entries(&vec!["a".to_owned(), "bb".to_owned()]);
    assert_eq!(std::str::from_utf8(&out).unwrap(), "127.0.0.1 a\n127.0.0.1 bb\n");
    assert!(generate_host_entries(&vec![]).is_empty());
}

#[test]
fn system_hosts_file_path() {
    assert_eq!(hosts_file(), "/etc/hosts");
}
