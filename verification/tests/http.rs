use robrowser_remoteclient::http::{
    accepts_deflate, answer_head, content_type, decode_request_path, form_value, join_lines, not_modified,
    quoted_etag,
};

#[test]
fn content_types_follow_the_extension_whatever_its_case() {
    assert_eq!(content_type(b"data/texture/foo.BMP"), "image/bmp");
    assert_eq!(content_type(b"a.jpg"), "image/jpeg");
    assert_eq!(content_type(b"a.JPEG"), "image/jpeg");
    assert_eq!(content_type(b"a.gif"), "image/gif");
    assert_eq!(content_type(b"a.png"), "image/png");
    assert_eq!(content_type(b"a.webp"), "image/webp");
    assert_eq!(content_type(b"BGM/01.mp3"), "audio/mpeg");
    assert_eq!(content_type(b"wav/x.wav"), "audio/wav");
    assert_eq!(content_type(b"f.otf"), "font/otf");
    assert_eq!(content_type(b"f.ttf"), "font/ttf");
    assert_eq!(content_type(b"data/x.xml"), "text/xml");
    assert_eq!(content_type(b"data/x.txt"), "text/plain");
    assert_eq!(content_type(b"AI/x.lua"), "text/plain");
    assert_eq!(content_type(b"data/model.rsm"), "application/octet-stream");
}

#[test]
fn content_types_read_the_file_name_as_a_path_does() {
    assert_eq!(content_type(b"data/.bmp"), "application/octet-stream");
    assert_eq!(content_type(b"data/foo.bmp/"), "image/bmp");
    assert_eq!(content_type(b"data/foo.bmp/."), "image/bmp");
    assert_eq!(content_type(b"data/foo.bmp/.."), "application/octet-stream");
    assert_eq!(content_type(b"data.bmp/foo"), "application/octet-stream");
    assert_eq!(content_type(b"a.b.png"), "image/png");
    assert_eq!(content_type(b""), "application/octet-stream");
    assert_eq!(content_type(b"foo."), "application/octet-stream");
}

#[test]
fn deflate_is_accepted_by_name_or_with_parameters() {
    assert!(accepts_deflate(b"deflate"));
    assert!(accepts_deflate(b"gzip, deflate, br"));
    assert!(accepts_deflate(b"gzip,deflate;q=0.5"));
    assert!(accepts_deflate(b" \tdeflate \t"));
    assert!(!accepts_deflate(b"gzip, br"));
    assert!(!accepts_deflate(b"deflatex"));
    assert!(!accepts_deflate(b"x-deflate"));
    assert!(!accepts_deflate(b""));
    assert!(!accepts_deflate(b"DEFLATE"));
}

#[test]
fn etags_are_quoted_and_marked_when_deflated() {
    assert_eq!(quoted_etag("abc-1-2", false), "\"abc-1-2\"");
    assert_eq!(quoted_etag("abc-1-2", true), "\"abc-1-2-deflate\"");
}

#[test]
fn conditional_requests_match_the_tag_or_a_star() {
    assert!(not_modified(Some(b"*"), None));
    assert!(not_modified(Some(b"\"x\""), Some(b"\"x\"")));
    assert!(!not_modified(Some(b"\"x\""), Some(b"\"y\"")));
    assert!(!not_modified(Some(b"\"x\""), None));
    assert!(!not_modified(None, Some(b"\"x\"")));
}

#[test]
fn request_paths_lose_their_slashes_and_escapes() {
    assert_eq!(decode_request_path(b"/data/foo%20bar.txt"), b"data/foo bar.txt");
    assert_eq!(decode_request_path(b"///data/%c7%c1.txt"), b"data/\xc7\xc1.txt");
    assert_eq!(decode_request_path(b"/100%"), b"100%");
    assert_eq!(decode_request_path(b"/%zz%4"), b"%zz%4");
    assert_eq!(decode_request_path(b""), b"");
}

#[test]
fn form_values_are_found_and_decoded() {
    assert_eq!(form_value(b"filter=data%5C%5C%5B%5E%5C0%5D%2B", b"filter"), Some(br"data\\[^\0]+".to_vec()));
    assert_eq!(form_value(b"a=1&filter=x+y&filter=z", b"filter"), Some(b"x y".to_vec()));
    assert_eq!(form_value(b"&&filter", b"filter"), Some(Vec::new()));
    assert_eq!(form_value(b"filters=1", b"filter"), None);
    assert_eq!(form_value(b"", b"filter"), None);
    assert_eq!(form_value(b"fil%74er=ok", b"filter"), Some(b"ok".to_vec()));
}

#[test]
fn search_answers_put_one_name_per_line() {
    assert_eq!(join_lines(&vec![]), b"");
    assert_eq!(join_lines(&vec![b"a".to_vec()]), b"a");
    assert_eq!(join_lines(&vec![b"a".to_vec(), b"bc".to_vec(), b"".to_vec()]), b"a\nbc\n");
}

#[test]
fn answer_heads_carry_type_encoding_and_tag() {
    let head = answer_head(b"data/a.bmp", true, Some("id-0-10"), None);
    assert_eq!(head.content_type, "image/bmp");
    assert!(head.deflated);
    assert_eq!(head.etag.as_deref(), Some("\"id-0-10-deflate\""));
    assert!(!head.not_modified);

    let head = answer_head(b"data/a.lua", false, Some("id-0-10"), Some(b"\"id-0-10\""));
    assert_eq!(head.content_type, "text/plain");
    assert!(head.not_modified);

    let head = answer_head(b"data/a.lua", true, Some("id-0-10"), Some(b"\"id-0-10\""));
    assert!(!head.not_modified);

    let head = answer_head(b"x", false, None, Some(b"*"));
    assert!(head.not_modified);
    assert_eq!(head.etag, None);
    assert_eq!(head.content_type, "application/octet-stream");
}
