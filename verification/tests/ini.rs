use robrowser_remoteclient::ini::data_ini_archives;

#[test]
fn archives_are_listed_by_priority() {
    let text = "; client data\r\n[Data]\r\n2=rdata.grf\r\n0=custom.grf\r\n1 = data.grf \r\n";
    assert_eq!(
        data_ini_archives(text),
        vec![(0, "custom.grf".to_string()), (1, "data.grf".to_string()), (2, "rdata.grf".to_string())]
    );
}

#[test]
fn only_the_data_section_counts() {
    let text = "0=outside.grf\n[Other]\n1=other.grf\n[ DATA ]\n2=spaced.grf\n[[data]]\n3=kept.grf\n";
    assert_eq!(data_ini_archives(text), vec![(3, "kept.grf".to_string())]);
}

#[test]
fn lines_that_do_not_parse_are_skipped() {
    let text = "[data]\nnoequals\n-1=neg.grf\nx=bad.grf\n+4=plus.grf\n4294967296=big.grf\n;5=comment.grf\n4294967295=max.grf\n=empty.grf\n";
    assert_eq!(
        data_ini_archives(text),
        vec![(4, "plus.grf".to_string()), (4294967295, "max.grf".to_string())]
    );
}

#[test]
fn equal_priorities_keep_their_order() {
    let text = "[DATA]\n1=b.grf\n0=a.grf\n1=c.grf\n0=d.grf\n";
    assert_eq!(
        data_ini_archives(text),
        vec![(0, "a.grf".to_string()), (0, "d.grf".to_string()), (1, "b.grf".to_string()), (1, "c.grf".to_string())]
    );
}

#[test]
fn values_are_trimmed_of_unicode_space() {
    let text = "[data]\n\u{3000}7\u{a0}=\u{2003}name with space.grf\u{3000}\n";
    assert_eq!(data_ini_archives(text), vec![(7, "name with space.grf".to_string())]);
}

#[test]
fn an_empty_file_lists_nothing() {
    assert!(data_ini_archives("").is_empty());
}
