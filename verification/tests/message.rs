use mail_auth::arc;
use mail_auth::common::address::collect_addresses;
use mail_auth::common::chain::{sort_by_instance, Header};
use mail_auth::common::headers::{classify, AuthenticatedHeader, HeaderParser};
use mail_auth::common::message::{add_request, hash_requests, AuthenticatedMessage};
use mail_auth::common::tag::{bytes_eq, find_tag, number, squeeze, tag_list, Tag};
use mail_auth::dkim;
use mail_auth::dkim::{Algorithm, Canonicalization, HashAlgorithm};
use mail_auth::error::Error;

const SHA256_HELLO: [u8; 32] = [
    0x05, 0xad, 0xe0, 0x8f, 0xcf, 0xb1, 0x04, 0xf4, 0x0b, 0x25, 0x36, 0xa1, 0x4d, 0xfc, 0xd6, 0xe9,
    0x16, 0xd6, 0x43, 0xf5, 0xcf, 0x80, 0x44, 0xb1, 0x90, 0x28, 0xb6, 0x07, 0xae, 0x8f, 0x49, 0x08,
];

const SHA1_HELLO: [u8; 20] = [
    0xfe, 0xdd, 0x18, 0x79, 0x78, 0x11, 0xa4, 0xaf, 0x65, 0x96, 0x78, 0xea, 0x5d, 0xb6, 0x18, 0xf8,
    0xdc, 0x91, 0x48, 0x0b,
];

const SHA1_HEL: [u8; 20] = [
    0xdb, 0xc2, 0xd1, 0xfe, 0xd0, 0xdc, 0x37, 0xa7, 0x0a, 0xea, 0x0f, 0x37, 0x69, 0x58, 0xc8, 0x02,
    0xed, 0xdc, 0x05, 0x59,
];

const SHA256_LINE_BREAK: [u8; 32] = [
    0x7e, 0xb7, 0x02, 0x57, 0x59, 0x3d, 0xa0, 0x6f, 0x68, 0x2a, 0x3d, 0xdd, 0xa5, 0x4a, 0x9d, 0x26,
    0x0d, 0x4f, 0xc5, 0x14, 0xf6, 0x45, 0x23, 0x7f, 0x5c, 0xa7, 0x4b, 0x08, 0xf8, 0xda, 0x61, 0xa6,
];

const SHA1_LINE_BREAK: [u8; 20] = [
    0xba, 0x8a, 0xb5, 0xa0, 0x28, 0x0b, 0x95, 0x3a, 0xa9, 0x74, 0x35, 0xff, 0x89, 0x46, 0xcb, 0xcb,
    0xb2, 0x75, 0x5a, 0x27,
];

const SHA256_EMPTY: [u8; 32] = [
    0xe3, 0xb0, 0xc4, 0x42, 0x98, 0xfc, 0x1c, 0x14, 0x9a, 0xfb, 0xf4, 0xc8, 0x99, 0x6f, 0xb9, 0x24,
    0x27, 0xae, 0x41, 0xe4, 0x64, 0x9b, 0x93, 0x4c, 0xa4, 0x95, 0x99, 0x1b, 0x78, 0x52, 0xb8, 0x55,
];

const SHA256_RELAXED_EXAMPLE: [u8; 32] = [
    0xba, 0x76, 0xa4, 0xe8, 0x91, 0xea, 0xd3, 0x02, 0xfe, 0x43, 0x51, 0xcf, 0xed, 0xd5, 0xb5, 0xb6,
    0x30, 0x71, 0xf4, 0x52, 0xc0, 0xe8, 0x37, 0xdf, 0xa1, 0x9d, 0x2a, 0xac, 0xbc, 0x1b, 0x6e, 0x9a,
];

const SHA1_SIMPLE_EXAMPLE: [u8; 20] = [
    0x09, 0x26, 0xee, 0x18, 0x67, 0x28, 0x79, 0x82, 0x45, 0xcb, 0x0f, 0x9c, 0x64, 0xed, 0x83, 0x3c,
    0x51, 0xe6, 0x7c, 0x2a,
];

const GOOD_SIGNATURE: &str =
    " v=1; a=rsa-sha256; c=relaxed/relaxed; d=example.com; s=sel;\r\n\th=from:to; bh=YWJj; b=ZGVm\r\n";

fn relaxed_sha256() -> dkim::Signature {
    dkim::Signature {
        a: Algorithm::RsaSha256,
        ch: Canonicalization::Relaxed,
        cb: Canonicalization::Relaxed,
        l: 0,
    }
}

#[test]
fn message_without_headers_is_no_message() {
    assert_eq!(AuthenticatedMessage::parse(b""), None);
    assert_eq!(AuthenticatedMessage::parse(b"\r\nbody"), None);
    assert_eq!(AuthenticatedMessage::parse(b"\nFrom: a@b.c\r\n"), None);
    assert!(AuthenticatedMessage::parse(b"From: a@b.c").is_some());
    assert!(AuthenticatedMessage::parse(b"x").is_some());
    assert!(AuthenticatedMessage::parse(b"\rx").is_some());
}

#[test]
fn malformed_signature_is_kept_beside_the_good_one() {
    let raw = format!(
        "DKIM-Signature:{}DKIM-Signature: v=1; a=rsa-md5; d=example.com\r\nFrom: John Doe <John@Example.COM>\r\nSubject: hi\r\n\r\nHello\r\n",
        GOOD_SIGNATURE
    );
    let message = AuthenticatedMessage::parse(raw.as_bytes()).unwrap();
    assert_eq!(message.headers.len(), 4);
    assert_eq!(message.headers[0], (&b"DKIM-Signature"[..], GOOD_SIGNATURE.as_bytes()));
    assert_eq!(message.headers[3], (&b"Subject"[..], &b" hi\r\n"[..]));
    assert_eq!(
        message.dkim_headers,
        vec![
            Header::new(
                &b"DKIM-Signature"[..],
                GOOD_SIGNATURE.as_bytes(),
                Ok(relaxed_sha256())
            ),
            Header::new(
                &b"DKIM-Signature"[..],
                &b" v=1; a=rsa-md5; d=example.com\r\n"[..],
                Err(Error::UnsupportedAlgorithm)
            ),
        ]
    );
    assert_eq!(
        message.body_hashes,
        vec![(
            Canonicalization::Relaxed,
            HashAlgorithm::Sha256,
            0,
            SHA256_HELLO.to_vec()
        )]
    );
    assert_eq!(message.from, vec!["john@example.com".to_string()]);
    assert_eq!(message.body, b"Hello\r\n");
    assert!(message.ams_headers.is_empty());
    assert!(message.as_headers.is_empty());
    assert!(message.aar_headers.is_empty());
}

#[test]
fn only_malformed_signatures_ask_for_no_hash() {
    let message =
        AuthenticatedMessage::parse(b"DKIM-Signature: a=rsa-sha256\r\n\r\nHello\r\n").unwrap();
    assert_eq!(
        message.dkim_headers,
        vec![Header::new(
            &b"DKIM-Signature"[..],
            &b" a=rsa-sha256\r\n"[..],
            Err(Error::MissingParameters)
        )]
    );
    assert!(message.body_hashes.is_empty());
}

#[test]
fn body_hash_requests_are_made_once() {
    let raw = concat_lines(&[
        "DKIM-Signature: a=rsa-sha256; c=simple/relaxed; d=a; s=b; h=c; bh=d; b=e",
        "dkim-signature: a=rsa-sha1; c=relaxed; l=3; d=a; s=b; h=c; bh=d; b=e",
        "DKIM-Signature: a=ed25519-sha256; c=relaxed/relaxed; d=a; s=b; h=c; bh=d; b=e",
        "ARC-Message-Signature: i=1; a=rsa-sha1; c=relaxed/simple; l=3; d=a; s=b; h=c; bh=d; b=e",
        "ARC-Message-Signature: i=2; a=rsa-sha1; d=a; s=b; h=c; bh=d; b=e",
        "",
        "Hello",
    ]);
    let message = AuthenticatedMessage::parse(raw.as_bytes()).unwrap();
    assert_eq!(message.dkim_headers.len(), 3);
    assert_eq!(message.ams_headers.len(), 2);
    assert_eq!(
        message.body_hashes,
        vec![
            (
                Canonicalization::Relaxed,
                HashAlgorithm::Sha256,
                0,
                SHA256_HELLO.to_vec()
            ),
            (
                Canonicalization::Simple,
                HashAlgorithm::Sha1,
                3,
                SHA1_HEL.to_vec()
            ),
            (
                Canonicalization::Simple,
                HashAlgorithm::Sha1,
                0,
                SHA1_HELLO.to_vec()
            ),
        ]
    );
}

fn concat_lines(lines: &[&str]) -> String {
    let mut out = String::new();
    for line in lines {
        out.push_str(line);
        out.push_str("\r\n");
    }
    out
}

fn seal(i: u32) -> String {
    format!("ARC-Seal: i={}; a=rsa-sha256; d=example.org; s=s{}; b=QQ==", i, i)
}

fn message_signature(i: u32) -> String {
    format!(
        "ARC-Message-Signature: i={}; a=rsa-sha256; c=relaxed/relaxed; d=example.org; s=s{}; h=from; bh=QQ==; b=QQ==",
        i, i
    )
}

fn results(i: u32) -> String {
    format!("ARC-Authentication-Results: i={}; mx.example.org; spf=pass smtp.mailfrom=a@b.c", i)
}

fn seal_instances(message: &AuthenticatedMessage) -> Vec<Result<u32, Error>> {
    message.as_headers.iter().map(|h| h.header.map(|d| d.i)).collect()
}

fn signature_instances(message: &AuthenticatedMessage) -> Vec<Result<u32, Error>> {
    message.ams_headers.iter().map(|h| h.header.map(|d| d.i)).collect()
}

fn results_instances(message: &AuthenticatedMessage) -> Vec<Result<u32, Error>> {
    message.aar_headers.iter().map(|h| h.header.map(|d| d.i)).collect()
}

#[test]
fn error_free_chain_is_sorted_by_instance() {
    let lines = [
        seal(3),
        message_signature(2),
        results(2),
        seal(1),
        results(3),
        message_signature(1),
        results(1),
        seal(2),
        message_signature(3),
        "From: a@b.c".to_string(),
        String::new(),
    ];
    let refs: Vec<&str> = lines.iter().map(|l| l.as_str()).collect();
    let raw = concat_lines(&refs);
    let message = AuthenticatedMessage::parse(raw.as_bytes()).unwrap();
    assert_eq!(seal_instances(&message), vec![Ok(1), Ok(2), Ok(3)]);
    assert_eq!(signature_instances(&message), vec![Ok(1), Ok(2), Ok(3)]);
    assert_eq!(results_instances(&message), vec![Ok(1), Ok(2), Ok(3)]);
    assert_eq!(message.as_headers[0].value, &seal(1).as_bytes()[9..].iter().copied().chain(*b"\r\n").collect::<Vec<u8>>()[..]);
    assert_eq!(message.headers.len(), 10);
    assert_eq!(message.headers[0].0, b"ARC-Seal");
    assert_eq!(message.headers[1].0, b"ARC-Message-Signature");
}

#[test]
fn chain_with_a_failed_seal_is_left_unsorted() {
    let lines = [
        seal(2),
        message_signature(2),
        results(2),
        "ARC-Seal: i=1; a=rsa-sha256; d=example.org".to_string(),
        message_signature(1),
        results(1),
        String::new(),
    ];
    let refs: Vec<&str> = lines.iter().map(|l| l.as_str()).collect();
    let raw = concat_lines(&refs);
    let message = AuthenticatedMessage::parse(raw.as_bytes()).unwrap();
    assert_eq!(
        seal_instances(&message),
        vec![Ok(2), Err(Error::MissingParameters)]
    );
    assert_eq!(signature_instances(&message), vec![Ok(2), Ok(1)]);
    assert_eq!(results_instances(&message), vec![Ok(2), Ok(1)]);
}

#[test]
fn chain_with_a_failed_signature_or_results_is_left_unsorted() {
    let lines = [
        seal(2),
        message_signature(2),
        results(2),
        seal(1),
        "ARC-Message-Signature: i=1; a=rsa-sha256".to_string(),
        results(1),
        String::new(),
    ];
    let refs: Vec<&str> = lines.iter().map(|l| l.as_str()).collect();
    let message_text = concat_lines(&refs);
    let message = AuthenticatedMessage::parse(message_text.as_bytes()).unwrap();
    assert_eq!(seal_instances(&message), vec![Ok(2), Ok(1)]);
    assert_eq!(
        signature_instances(&message),
        vec![Ok(2), Err(Error::MissingParameters)]
    );
    assert_eq!(results_instances(&message), vec![Ok(2), Ok(1)]);

    let lines = [
        seal(2),
        message_signature(2),
        results(2),
        seal(1),
        message_signature(1),
        "ARC-Authentication-Results: mx.example.org; spf=pass".to_string(),
        String::new(),
    ];
    let refs: Vec<&str> = lines.iter().map(|l| l.as_str()).collect();
    let message_text = concat_lines(&refs);
    let message = AuthenticatedMessage::parse(message_text.as_bytes()).unwrap();
    assert_eq!(seal_instances(&message), vec![Ok(2), Ok(1)]);
    assert_eq!(signature_instances(&message), vec![Ok(2), Ok(1)]);
    assert_eq!(
        results_instances(&message),
        vec![Ok(2), Err(Error::ARCInvalidInstance)]
    );
}

#[test]
fn chain_without_a_seal_is_left_unsorted() {
    let lines = [
        message_signature(2),
        results(2),
        message_signature(1),
        results(1),
        String::new(),
    ];
    let refs: Vec<&str> = lines.iter().map(|l| l.as_str()).collect();
    let raw = concat_lines(&refs);
    let message = AuthenticatedMessage::parse(raw.as_bytes()).unwrap();
    assert!(message.as_headers.is_empty());
    assert_eq!(signature_instances(&message), vec![Ok(2), Ok(1)]);
    assert_eq!(results_instances(&message), vec![Ok(2), Ok(1)]);
}

#[test]
fn sorting_is_stable() {
    let items = vec![
        Header::new(&b"a"[..], &b"1"[..], Ok(arc::Results { i: 2 })),
        Header::new(&b"b"[..], &b"2"[..], Ok(arc::Results { i: 1 })),
        Header::new(&b"c"[..], &b"3"[..], Ok(arc::Results { i: 2 })),
        Header::new(&b"d"[..], &b"4"[..], Ok(arc::Results { i: 1 })),
        Header::new(&b"e"[..], &b"5"[..], Err(Error::ARCInvalidInstance)),
    ];
    let sorted = sort_by_instance(&items);
    let names: Vec<&[u8]> = sorted.iter().map(|h| h.name).collect();
    assert_eq!(names, vec![&b"e"[..], b"b", b"d", b"a", b"c"]);
    let empty: Vec<Header<Result<arc::Seal, Error>>> = Vec::new();
    assert!(sort_by_instance(&empty).is_empty());
}

#[test]
fn from_addresses_are_collected_in_lower_case() {
    for (value, expected) in [
        ("From: John@Example.COM\r\n", vec!["john@example.com"]),
        ("From: John Doe <John.Doe@Example.COM>\r\n", vec!["john.doe@example.com"]),
        (
            "From: A <A@x.org>, \"B, C\" <B@Y.org>,\r\n c@z.ORG\r\n",
            vec!["a@x.org", "b@y.org", "c@z.org"],
        ),
        ("From: Friends: A@x.org, Bee <B@y.org>;\r\n", vec!["a@x.org", "b@y.org"]),
        (
            "From: One: A@x.org; Two: B@y.org, C@Z.org;\r\n",
            vec!["a@x.org", "b@y.org", "c@z.org"],
        ),
        ("From: John Doe\r\n", vec![]),
        ("From:\r\n", vec![]),
        ("from: A@b.c\r\nFROM : D@e.f\r\n", vec!["a@b.c", "d@e.f"]),
        ("X-From: A@b.c\r\n", vec![]),
    ] {
        let message = AuthenticatedMessage::parse(value.as_bytes()).unwrap();
        let expected: Vec<String> = expected.iter().map(|a| a.to_string()).collect();
        assert_eq!(message.from, expected, "{}", value);
    }
}

#[test]
fn collect_addresses_passes_over_missing_addresses() {
    let mut from = vec!["first@example.org".to_string()];
    let parsed = vec![
        Some("Second@Example.ORG".to_string()),
        None,
        Some("THIRD@EXAMPLE.ORG".to_string()),
        None,
    ];
    collect_addresses(&mut from, &parsed);
    assert_eq!(
        from,
        vec![
            "first@example.org".to_string(),
            "second@example.org".to_string(),
            "third@example.org".to_string()
        ]
    );
    collect_addresses(&mut from, &Vec::new());
    assert_eq!(from.len(), 3);
}

#[test]
fn body_follows_the_empty_line() {
    let message = AuthenticatedMessage::parse(b"A: b\r\n\r\nline 1\r\n\r\nline 2").unwrap();
    assert_eq!(message.body, b"line 1\r\n\r\nline 2");
    let message = AuthenticatedMessage::parse(b"A: b\n\nbody").unwrap();
    assert_eq!(message.body, b"body");
    let message = AuthenticatedMessage::parse(b"A: b\r\n\r\n").unwrap();
    assert_eq!(message.body, b"");
    let message = AuthenticatedMessage::parse(b"A: b\r\n").unwrap();
    assert_eq!(message.body, b"");
    let message = AuthenticatedMessage::parse(b"A: b\r\nB: c").unwrap();
    assert_eq!(message.body, b"");
    assert_eq!(
        message.headers,
        vec![(&b"A"[..], &b" b\r\n"[..]), (&b"B"[..], &b" c"[..])]
    );
}

#[test]
fn headers_are_split_at_unfolded_line_breaks() {
    let raw = b"A: 1\r\n b\r\nB:2\n\tc\nNo colon here\r\nD : x:y\r\n\r\nbody";
    let mut parser = HeaderParser::new(raw);
    assert_eq!(
        parser.next(),
        Some((AuthenticatedHeader::Other(b"A"), &b" 1\r\n b\r\n"[..]))
    );
    assert_eq!(
        parser.next(),
        Some((AuthenticatedHeader::Other(b"B"), &b"2\n\tc\n"[..]))
    );
    assert_eq!(
        parser.next(),
        Some((AuthenticatedHeader::Other(b"No colon here\r\n"), &b""[..]))
    );
    assert_eq!(
        parser.next(),
        Some((AuthenticatedHeader::Other(b"D "), &b" x:y\r\n"[..]))
    );
    assert_eq!(parser.next(), None);
    assert_eq!(parser.next(), None);
    assert_eq!(parser.body_offset(), Some(raw.len() - 4));
    let mut parser = HeaderParser::new(b"A: 1");
    assert_eq!(
        parser.next(),
        Some((AuthenticatedHeader::Other(b"A"), &b" 1"[..]))
    );
    assert_eq!(parser.next(), None);
    assert_eq!(parser.body_offset(), None);
}

#[test]
fn headers_are_classified_by_name() {
    assert_eq!(
        classify(b"DKIM-Signature"),
        AuthenticatedHeader::Ds(b"DKIM-Signature")
    );
    assert_eq!(
        classify(b"dkim-signature \t"),
        AuthenticatedHeader::Ds(b"dkim-signature \t")
    );
    assert_eq!(
        classify(b"ARC-AUTHENTICATION-RESULTS"),
        AuthenticatedHeader::Aar(b"ARC-AUTHENTICATION-RESULTS")
    );
    assert_eq!(
        classify(b"Arc-Message-Signature"),
        AuthenticatedHeader::Ams(b"Arc-Message-Signature")
    );
    assert_eq!(classify(b"ARC-Seal"), AuthenticatedHeader::As(b"ARC-Seal"));
    assert_eq!(classify(b"fRoM"), AuthenticatedHeader::From(b"fRoM"));
    for other in [
        &b"X-From"[..],
        b"Fro",
        b"From2",
        b" From",
        b"",
        b" ",
        b"DKIM_Signature",
        b"ARC-Seals",
        b"Authentication-Results",
    ] {
        assert_eq!(classify(other), AuthenticatedHeader::Other(other));
    }
}

#[test]
fn tag_list_values() {
    let bytes = b" a=1; B = 2 ;c=;bh=x=y;;d";
    let tags = tag_list(bytes);
    assert_eq!(
        tags,
        vec![
            Tag { key: 0x61, start: 3, end: 4 },
            Tag { key: 0x62, start: 9, end: 12 },
            Tag { key: 0x63, start: 15, end: 15 },
            Tag { key: 0x6862, start: 19, end: 22 },
        ]
    );
    assert_eq!(&bytes[9..12], b" 2 ");
    assert_eq!(&bytes[19..22], b"x=y");
    assert_eq!(find_tag(&tags, 0x62), Some(tags[1]));
    assert_eq!(find_tag(&tags, 0x64), None);
    let tags = tag_list(b"a=1;a=2");
    assert_eq!(find_tag(&tags, 0x61), Some(Tag { key: 0x61, start: 2, end: 3 }));
    assert!(tag_list(b"").is_empty());
    assert!(tag_list(b"no tags here").is_empty());
}

#[test]
fn tag_value_readers() {
    assert_eq!(number(b"1"), Some(1));
    assert_eq!(number(b" 1 2\r\n 3 "), Some(123));
    assert_eq!(number(b"007"), Some(7));
    assert_eq!(number(b""), None);
    assert_eq!(number(b"  "), None);
    assert_eq!(number(b"1x"), None);
    assert_eq!(number(b"-1"), None);
    assert_eq!(number(b"18446744073709551615"), Some(u64::MAX));
    assert_eq!(number(b"18446744073709551616"), Some(u64::MAX));
    assert_eq!(number(b"99999999999999999999999"), Some(u64::MAX));
    assert_eq!(squeeze(b" Rsa-\r\n\tSHA256 "), b"rsa-sha256".to_vec());
    assert_eq!(squeeze(b""), Vec::<u8>::new());
    assert_eq!(squeeze(b" \t\r\n"), Vec::<u8>::new());
    assert!(bytes_eq(b"abc", b"abc"));
    assert!(bytes_eq(b"", b""));
    assert!(!bytes_eq(b"abc", b"abd"));
    assert!(!bytes_eq(b"abc", b"ab"));
}

#[test]
fn dkim_signature_descriptors() {
    assert_eq!(
        dkim::Signature::parse(GOOD_SIGNATURE.as_bytes()),
        Ok(relaxed_sha256())
    );
    assert_eq!(
        dkim::Signature::parse(b"a=rsa-sha1; d=a; s=b; h=c; bh=d; b=e"),
        Ok(dkim::Signature {
            a: Algorithm::RsaSha1,
            ch: Canonicalization::Simple,
            cb: Canonicalization::Simple,
            l: 0,
        })
    );
    assert_eq!(
        dkim::Signature::parse(b"A = ED25519-SHA256 ; C = Relaxed ; L = 1 0 0; d=a; s=b; h=c; bh=d; b=e;"),
        Ok(dkim::Signature {
            a: Algorithm::Ed25519Sha256,
            ch: Canonicalization::Relaxed,
            cb: Canonicalization::Simple,
            l: 100,
        })
    );
    assert_eq!(
        dkim::Signature::parse(b"a=rsa-sha256; c=simple/relaxed; l=x; d=a; s=b; h=c; bh=d; b=e"),
        Ok(dkim::Signature {
            a: Algorithm::RsaSha256,
            ch: Canonicalization::Simple,
            cb: Canonicalization::Relaxed,
            l: 0,
        })
    );
    for c in ["simple", "simple/simple"] {
        let value = format!("a=rsa-sha256; c={}; d=a; s=b; h=c; bh=d; b=e", c);
        let signature = dkim::Signature::parse(value.as_bytes()).unwrap();
        assert_eq!(
            (signature.ch, signature.cb),
            (Canonicalization::Simple, Canonicalization::Simple)
        );
    }
    assert_eq!(Algorithm::RsaSha1.hash_algorithm(), HashAlgorithm::Sha1);
    assert_eq!(Algorithm::RsaSha256.hash_algorithm(), HashAlgorithm::Sha256);
    assert_eq!(Algorithm::Ed25519Sha256.hash_algorithm(), HashAlgorithm::Sha256);
}

#[test]
fn dkim_signature_errors() {
    for (value, error) in [
        ("", Error::MissingParameters),
        ("d=a; s=b; h=c; bh=d; b=e", Error::MissingParameters),
        ("a=rsa-sha256; s=b; h=c; bh=d; b=e", Error::MissingParameters),
        ("a=rsa-sha256; d=a; h=c; bh=d; b=e", Error::MissingParameters),
        ("a=rsa-sha256; d=a; s=b; bh=d; b=e", Error::MissingParameters),
        ("a=rsa-sha256; d=a; s=b; h=c; b=e", Error::MissingParameters),
        ("a=rsa-sha256; d=a; s=b; h=c; bh=d", Error::MissingParameters),
        ("a=rsa-sha256; d=a; s=b; h=c; bh=d; b= ", Error::MissingParameters),
        ("v=2; a=rsa-sha256; d=a; s=b; h=c; bh=d; b=e", Error::UnsupportedVersion),
        ("v=; a=rsa-sha256; d=a; s=b; h=c; bh=d; b=e", Error::UnsupportedVersion),
        ("v=1; a=rsa-sha512; d=a; s=b; h=c; bh=d; b=e", Error::UnsupportedAlgorithm),
        ("a=; d=a; s=b; h=c; bh=d; b=e", Error::UnsupportedAlgorithm),
        ("a=rsa-sha256; c=nofws; d=a; s=b; h=c; bh=d; b=e", Error::UnsupportedCanonicalization),
        ("a=rsa-sha256; c=simple/; d=a; s=b; h=c; bh=d; b=e", Error::UnsupportedCanonicalization),
    ] {
        assert_eq!(dkim::Signature::parse(value.as_bytes()), Err(error), "{}", value);
    }
}

#[test]
fn arc_descriptors() {
    assert_eq!(
        arc::Signature::parse(b" i=3; a=rsa-sha1; c=relaxed/relaxed; l=7; d=a; s=b; h=c; bh=d; b=e"),
        Ok(arc::Signature {
            i: 3,
            a: Algorithm::RsaSha1,
            ch: Canonicalization::Relaxed,
            cb: Canonicalization::Relaxed,
            l: 7,
        })
    );
    assert_eq!(
        arc::Seal::parse(b" i=50; cv=pass; a=ed25519-sha256; d=a; s=b; b=e"),
        Ok(arc::Seal {
            i: 50,
            a: Algorithm::Ed25519Sha256,
        })
    );
    assert_eq!(
        arc::Results::parse(b" i=1; mx.example.org; dkim=pass header.i=@example.org"),
        Ok(arc::Results { i: 1 })
    );
    for value in ["", "i=0", "i=51", "i=x", "i=", "a=rsa-sha256", "i=-1"] {
        assert_eq!(
            arc::Results::parse(value.as_bytes()),
            Err(Error::ARCInvalidInstance),
            "{}",
            value
        );
        let with_fields = format!("{}; a=rsa-sha256; d=a; s=b; h=c; bh=d; b=e", value);
        assert_eq!(
            arc::Signature::parse(with_fields.as_bytes()),
            Err(Error::ARCInvalidInstance),
            "{}",
            value
        );
        assert_eq!(
            arc::Seal::parse(with_fields.as_bytes()),
            Err(Error::ARCInvalidInstance),
            "{}",
            value
        );
    }
    assert_eq!(
        arc::Signature::parse(b"i=1; a=rsa-sha256; d=a; s=b; h=c; b=e"),
        Err(Error::MissingParameters)
    );
    assert_eq!(
        arc::Signature::parse(b"i=1; a=foo; d=a; s=b; h=c; bh=d; b=e"),
        Err(Error::UnsupportedAlgorithm)
    );
    assert_eq!(
        arc::Signature::parse(b"i=1; a=rsa-sha1; c=x; d=a; s=b; h=c; bh=d; b=e"),
        Err(Error::UnsupportedCanonicalization)
    );
    assert_eq!(arc::Seal::parse(b"i=1; d=a; s=b; b=e"), Err(Error::MissingParameters));
    assert_eq!(arc::Seal::parse(b"i=1; a=x; d=a; s=b; b=e"), Err(Error::UnsupportedAlgorithm));
    assert_eq!(arc::Seal::parse(b"i=1; a=rsa-sha1; d=a; s=b"), Err(Error::MissingParameters));
}

#[test]
fn body_canonicalization() {
    let body = b" C \r\nD \t E\r\n\r\n\r\n";
    assert_eq!(
        Canonicalization::Relaxed.canonicalize_body(body),
        b" C\r\nD E\r\n".to_vec()
    );
    assert_eq!(
        Canonicalization::Simple.canonicalize_body(body),
        b" C \r\nD \t E\r\n".to_vec()
    );
    assert_eq!(Canonicalization::Simple.canonicalize_body(b""), b"\r\n".to_vec());
    assert_eq!(Canonicalization::Simple.canonicalize_body(b"\r\n\r\n"), b"\r\n".to_vec());
    assert_eq!(Canonicalization::Relaxed.canonicalize_body(b""), b"".to_vec());
    assert_eq!(Canonicalization::Relaxed.canonicalize_body(b"\r\n \t\r\n"), b"".to_vec());
    assert_eq!(Canonicalization::Simple.canonicalize_body(b"a"), b"a\r\n".to_vec());
    assert_eq!(Canonicalization::Relaxed.canonicalize_body(b"a"), b"a\r\n".to_vec());
    assert_eq!(Canonicalization::Simple.canonicalize_body(b"a\nb\n"), b"a\r\nb\r\n".to_vec());
    assert_eq!(
        Canonicalization::Relaxed.canonicalize_body(b"a\r\n\r\n  b  c\t\r\n \r\n"),
        b"a\r\n\r\n b c\r\n".to_vec()
    );
    assert_eq!(
        Canonicalization::Simple.canonicalize_body(b"a\r\n\r\n  b  c\t\r\n \r\n"),
        b"a\r\n\r\n  b  c\t\r\n \r\n".to_vec()
    );
}

#[test]
fn body_hashes_are_digests_of_the_canonical_body() {
    assert_eq!(
        Canonicalization::Simple.hash_body(HashAlgorithm::Sha256, b"", 0),
        SHA256_LINE_BREAK.to_vec()
    );
    assert_eq!(
        Canonicalization::Simple.hash_body(HashAlgorithm::Sha1, b"\r\n\r\n", 0),
        SHA1_LINE_BREAK.to_vec()
    );
    assert_eq!(
        Canonicalization::Relaxed.hash_body(HashAlgorithm::Sha256, b"", 0),
        SHA256_EMPTY.to_vec()
    );
    assert_eq!(
        Canonicalization::Relaxed.hash_body(HashAlgorithm::Sha256, b" C \r\nD \t E\r\n\r\n\r\n", 0),
        SHA256_RELAXED_EXAMPLE.to_vec()
    );
    assert_eq!(
        Canonicalization::Simple.hash_body(HashAlgorithm::Sha1, b" C \r\nD \t E\r\n\r\n\r\n", 0),
        SHA1_SIMPLE_EXAMPLE.to_vec()
    );
    assert_eq!(
        Canonicalization::Simple.hash_body(HashAlgorithm::Sha1, b"Hello", 3),
        SHA1_HEL.to_vec()
    );
    assert_eq!(
        Canonicalization::Simple.hash_body(HashAlgorithm::Sha1, b"Hello", 7),
        SHA1_HELLO.to_vec()
    );
    assert_eq!(
        Canonicalization::Simple.hash_body(HashAlgorithm::Sha1, b"Hello", 8),
        SHA1_HELLO.to_vec()
    );
    assert_eq!(
        Canonicalization::Relaxed.hash_body(HashAlgorithm::Sha256, b"Hello  \r\n\r\n", u64::MAX),
        SHA256_HELLO.to_vec()
    );
}

#[test]
fn requests_and_their_hashes() {
    let mut hashes = Vec::new();
    add_request(&mut hashes, Canonicalization::Simple, HashAlgorithm::Sha1, 0);
    add_request(&mut hashes, Canonicalization::Simple, HashAlgorithm::Sha1, 3);
    add_request(&mut hashes, Canonicalization::Simple, HashAlgorithm::Sha1, 0);
    add_request(&mut hashes, Canonicalization::Relaxed, HashAlgorithm::Sha1, 0);
    add_request(&mut hashes, Canonicalization::Simple, HashAlgorithm::Sha256, 0);
    add_request(&mut hashes, Canonicalization::Simple, HashAlgorithm::Sha1, 3);
    assert_eq!(
        hashes,
        vec![
            (Canonicalization::Simple, HashAlgorithm::Sha1, 0, vec![]),
            (Canonicalization::Simple, HashAlgorithm::Sha1, 3, vec![]),
            (Canonicalization::Relaxed, HashAlgorithm::Sha1, 0, vec![]),
            (Canonicalization::Simple, HashAlgorithm::Sha256, 0, vec![]),
        ]
    );
    let hashed = hash_requests(&hashes, b"Hello\r\n");
    assert_eq!(
        hashed,
        vec![
            (Canonicalization::Simple, HashAlgorithm::Sha1, 0, SHA1_HELLO.to_vec()),
            (Canonicalization::Simple, HashAlgorithm::Sha1, 3, SHA1_HEL.to_vec()),
            (Canonicalization::Relaxed, HashAlgorithm::Sha1, 0, SHA1_HELLO.to_vec()),
            (Canonicalization::Simple, HashAlgorithm::Sha256, 0, SHA256_HELLO.to_vec()),
        ]
    );
}

#[test]
fn parsing_a_message_twice_gives_equal_messages() {
    let lines = [
        seal(2),
        message_signature(2),
        results(2),
        seal(1),
        message_signature(1),
        results(1),
        "From: A@b.c".to_string(),
        String::new(),
        "body".to_string(),
    ];
    let refs: Vec<&str> = lines.iter().map(|l| l.as_str()).collect();
    let raw = concat_lines(&refs);
    assert_eq!(
        AuthenticatedMessage::parse(raw.as_bytes()),
        AuthenticatedMessage::parse(raw.as_bytes())
    );
}
