use mail_auth::common::cursor::Cursor;
use mail_auth::spf::{Directive, Macro, Mechanism, Modifier, Qualifier, Variable, Version, SPF};

#[test]
fn parse_spf() {
    for (record, expected_result) in [
        (
            "v=spf1 +mx a:colo.example.com/28 -all",
            SPF {
                version: Version::Spf1,
                modifiers: vec![],
                directives: vec![
                    Directive::new(
                        Qualifier::Pass,
                        Mechanism::Mx {
                            macro_string: Macro::Empty,
                            ip4_cidr_length: 32,
                            ip6_cidr_length: 128,
                        },
                    ),
                    Directive::new(
                        Qualifier::Pass,
                        Mechanism::A {
                            macro_string: Macro::Literal(b"colo.example.com".to_vec()),
                            ip4_cidr_length: 28,
                            ip6_cidr_length: 128,
                        },
                    ),
                    Directive::new(Qualifier::Fail, Mechanism::All),
                ],
            },
        ),
        (
            "v=spf1 a:A.EXAMPLE.COM -all",
            SPF {
                version: Version::Spf1,
                modifiers: vec![],
                directives: vec![
                    Directive::new(
                        Qualifier::Pass,
                        Mechanism::A {
                            macro_string: Macro::Literal(b"A.EXAMPLE.COM".to_vec()),
                            ip4_cidr_length: 32,
                            ip6_cidr_length: 128,
                        },
                    ),
                    Directive::new(Qualifier::Fail, Mechanism::All),
                ],
            },
        ),
        (
            "v=spf1 +mx -all",
            SPF {
                version: Version::Spf1,
                modifiers: vec![],
                directives: vec![
                    Directive::new(
                        Qualifier::Pass,
                        Mechanism::Mx {
                            macro_string: Macro::Empty,
                            ip4_cidr_length: 32,
                            ip6_cidr_length: 128,
                        },
                    ),
                    Directive::new(Qualifier::Fail, Mechanism::All),
                ],
            },
        ),
        (
            "v=spf1 +mx redirect=_spf.example.com",
            SPF {
                version: Version::Spf1,
                modifiers: vec![Modifier::Redirect(Macro::Literal(
                    b"_spf.example.com".to_vec(),
                ))],
                directives: vec![Directive::new(
                    Qualifier::Pass,
                    Mechanism::Mx {
                        macro_string: Macro::Empty,
                        ip4_cidr_length: 32,
                        ip6_cidr_length: 128,
                    },
                )],
            },
        ),
        (
            "v=spf1 a mx -all",
            SPF {
                version: Version::Spf1,
                modifiers: vec![],
                directives: vec![
                    Directive::new(
                        Qualifier::Pass,
                        Mechanism::A {
                            macro_string: Macro::Empty,
                            ip4_cidr_length: 32,
                            ip6_cidr_length: 128,
                        },
                    ),
                    Directive::new(
                        Qualifier::Pass,
                        Mechanism::Mx {
                            macro_string: Macro::Empty,
                            ip4_cidr_length: 32,
                            ip6_cidr_length: 128,
                        },
                    ),
                    Directive::new(Qualifier::Fail, Mechanism::All),
                ],
            },
        ),
        (
            "v=spf1 include:example.com include:example.org -all",
            SPF {
                version: Version::Spf1,
                modifiers: vec![],
                directives: vec![
                    Directive::new(
                        Qualifier::Pass,
                        Mechanism::Include {
                            macro_string: Macro::Literal(b"example.com".to_vec()),
                        },
                    ),
                    Directive::new(
                        Qualifier::Pass,
                        Mechanism::Include {
                            macro_string: Macro::Literal(b"example.org".to_vec()),
                        },
                    ),
                    Directive::new(Qualifier::Fail, Mechanism::All),
                ],
            },
        ),
        (
            "v=spf1 exists:%{ir}.%{l1r+-}._spf.%{d} -all",
            SPF {
                version: Version::Spf1,
                modifiers: vec![],
                directives: vec![
                    Directive::new(
                        Qualifier::Pass,
                        Mechanism::Exists {
                            macro_string: Macro::List(vec![
                                Macro::Variable {
                                    letter: Variable::Ip,
                                    num_parts: 0,
                                    reverse: true,
                                    escape: false,
                                    delimiters: 1u64 << (b'.' - b'+'),
                                },
                                Macro::Literal(b".".to_vec()),
                                Macro::Variable {
                                    letter: Variable::SenderLocalPart,
                                    num_parts: 1,
                                    reverse: true,
                                    escape: false,
                                    delimiters: 1u64 << (b'+' - b'+') | 1u64 << (b'-' - b'+'),
                                },
                                Macro::Literal(b"._spf.".to_vec()),
                                Macro::Variable {
                                    letter: Variable::Domain,
                                    num_parts: 0,
                                    reverse: false,
                                    escape: false,
                                    delimiters: 1u64 << (b'.' - b'+'),
                                },
                            ]),
                        },
                    ),
                    Directive::new(Qualifier::Fail, Mechanism::All),
                ],
            },
        ),
        (
            "v=spf1 mx -all exp=explain._spf.%{d}",
            SPF {
                version: Version::Spf1,
                modifiers: vec![Modifier::Explanation(Macro::List(vec![
                    Macro::Literal(b"explain._spf.".to_vec()),
                    Macro::Variable {
                        letter: Variable::Domain,
                        num_parts: 0,
                        reverse: false,
                        escape: false,
                        delimiters: 1u64 << (b'.' - b'+'),
                    },
                ]))],
                directives: vec![
                    Directive::new(
                        Qualifier::Pass,
                        Mechanism::Mx {
                            macro_string: Macro::Empty,
                            ip4_cidr_length: 32,
                            ip6_cidr_length: 128,
                        },
                    ),
                    Directive::new(Qualifier::Fail, Mechanism::All),
                ],
            },
        ),
        (
            "v=spf1 ip4:192.0.2.1 ip4:192.0.2.129 -all",
            SPF {
                version: Version::Spf1,
                modifiers: vec![],
                directives: vec![
                    Directive::new(
                        Qualifier::Pass,
                        Mechanism::Ip4 {
                            addr: [192, 0, 2, 1],
                            cidr_length: 32,
                        },
                    ),
                    Directive::new(
                        Qualifier::Pass,
                        Mechanism::Ip4 {
                            addr: [192, 0, 2, 129],
                            cidr_length: 32,
                        },
                    ),
                    Directive::new(Qualifier::Fail, Mechanism::All),
                ],
            },
        ),
        (
            "v=spf1 ip4:192.0.2.0/24 mx -all",
            SPF {
                version: Version::Spf1,
                modifiers: vec![],
                directives: vec![
                    Directive::new(
                        Qualifier::Pass,
                        Mechanism::Ip4 {
                            addr: [192, 0, 2, 0],
                            cidr_length: 24,
                        },
                    ),
                    Directive::new(
                        Qualifier::Pass,
                        Mechanism::Mx {
                            macro_string: Macro::Empty,
                            ip4_cidr_length: 32,
                            ip6_cidr_length: 128,
                        },
                    ),
                    Directive::new(Qualifier::Fail, Mechanism::All),
                ],
            },
        ),
        (
            "v=spf1 mx/30 mx:example.org/30 -all",
            SPF {
                version: Version::Spf1,
                modifiers: vec![],
                directives: vec![
                    Directive::new(
                        Qualifier::Pass,
                        Mechanism::Mx {
                            macro_string: Macro::Empty,
                            ip4_cidr_length: 30,
                            ip6_cidr_length: 128,
                        },
                    ),
                    Directive::new(
                        Qualifier::Pass,
                        Mechanism::Mx {
                            macro_string: Macro::Literal(b"example.org".to_vec()),
                            ip4_cidr_length: 30,
                            ip6_cidr_length: 128,
                        },
                    ),
                    Directive::new(Qualifier::Fail, Mechanism::All),
                ],
            },
        ),
        (
            "v=spf1 ptr -all",
            SPF {
                version: Version::Spf1,
                modifiers: vec![],
                directives: vec![
                    Directive::new(
                        Qualifier::Pass,
                        Mechanism::Ptr {
                            macro_string: Macro::Empty,
                        },
                    ),
                    Directive::new(Qualifier::Fail, Mechanism::All),
                ],
            },
        ),
        (
            "v=spf1 exists:%{l1r+}.%{d}",
            SPF {
                version: Version::Spf1,
                modifiers: vec![],
                directives: vec![Directive::new(
                    Qualifier::Pass,
                    Mechanism::Exists {
                        macro_string: Macro::List(vec![
                            Macro::Variable {
                                letter: Variable::SenderLocalPart,
                                num_parts: 1,
                                reverse: true,
                                escape: false,
                                delimiters: 1u64 << (b'+' - b'+'),
                            },
                            Macro::Literal(b".".to_vec()),
                            Macro::Variable {
                                letter: Variable::Domain,
                                num_parts: 0,
                                reverse: false,
                                escape: false,
                                delimiters: 1u64 << (b'.' - b'+'),
                            },
                        ]),
                    },
                )],
            },
        ),
        (
            "v=spf1 exists:%{ir}.%{l1r+}.%{d}",
            SPF {
                version: Version::Spf1,
                modifiers: vec![],
                directives: vec![Directive::new(
                    Qualifier::Pass,
                    Mechanism::Exists {
                        macro_string: Macro::List(vec![
                            Macro::Variable {
                                letter: Variable::Ip,
                                num_parts: 0,
                                reverse: true,
                                escape: false,
                                delimiters: 1u64 << (b'.' - b'+'),
                            },
                            Macro::Literal(b".".to_vec()),
                            Macro::Variable {
                                letter: Variable::SenderLocalPart,
                                num_parts: 1,
                                reverse: true,
                                escape: false,
                                delimiters: 1u64 << (b'+' - b'+'),
                            },
                            Macro::Literal(b".".to_vec()),
                            Macro::Variable {
                                letter: Variable::Domain,
                                num_parts: 0,
                                reverse: false,
                                escape: false,
                                delimiters: 1u64 << (b'.' - b'+'),
                            },
                        ]),
                    },
                )],
            },
        ),
        (
            "v=spf1 exists:_h.%{h}._l.%{l}._o.%{o}._i.%{i}._spf.%{d} ?all",
            SPF {
                version: Version::Spf1,
                modifiers: vec![],
                directives: vec![
                    Directive::new(
                        Qualifier::Pass,
                        Mechanism::Exists {
                            macro_string: Macro::List(vec![
                                Macro::Literal(b"_h.".to_vec()),
                                Macro::Variable {
                                    letter: Variable::HeloDomain,
                                    num_parts: 0,
                                    reverse: false,
                                    escape: false,
                                    delimiters: 1u64 << (b'.' - b'+'),
                                },
                                Macro::Literal(b"._l.".to_vec()),
                                Macro::Variable {
                                    letter: Variable::SenderLocalPart,
                                    num_parts: 0,
                                    reverse: false,
                                    escape: false,
                                    delimiters: 1u64 << (b'.' - b'+'),
                                },
                                Macro::Literal(b"._o.".to_vec()),
                                Macro::Variable {
                                    letter: Variable::SenderDomainPart,
                                    num_parts: 0,
                                    reverse: false,
                                    escape: false,
                                    delimiters: 1u64 << (b'.' - b'+'),
                                },
                                Macro::Literal(b"._i.".to_vec()),
                                Macro::Variable {
                                    letter: Variable::Ip,
                                    num_parts: 0,
                                    reverse: false,
                                    escape: false,
                                    delimiters: 1u64 << (b'.' - b'+'),
                                },
                                Macro::Literal(b"._spf.".to_vec()),
                                Macro::Variable {
                                    letter: Variable::Domain,
                                    num_parts: 0,
                                    reverse: false,
                                    escape: false,
                                    delimiters: 1u64 << (b'.' - b'+'),
                                },
                            ]),
                        },
                    ),
                    Directive::new(Qualifier::Neutral, Mechanism::All),
                ],
            },
        ),
        (
            "v=spf1 mx ?exists:%{ir}.whitelist.example.org -all",
            SPF {
                version: Version::Spf1,
                modifiers: vec![],
                directives: vec![
                    Directive::new(
                        Qualifier::Pass,
                        Mechanism::Mx {
                            macro_string: Macro::Empty,
                            ip4_cidr_length: 32,
                            ip6_cidr_length: 128,
                        },
                    ),
                    Directive::new(
                        Qualifier::Neutral,
                        Mechanism::Exists {
                            macro_string: Macro::List(vec![
                                Macro::Variable {
                                    letter: Variable::Ip,
                                    num_parts: 0,
                                    reverse: true,
                                    escape: false,
                                    delimiters: 1u64 << (b'.' - b'+'),
                                },
                                Macro::Literal(b".whitelist.example.org".to_vec()),
                            ]),
                        },
                    ),
                    Directive::new(Qualifier::Fail, Mechanism::All),
                ],
            },
        ),
        (
            "v=spf1 mx exists:%{l}._%-spf_%_verify%%.%{d} -all",
            SPF {
                version: Version::Spf1,
                modifiers: vec![],
                directives: vec![
                    Directive::new(
                        Qualifier::Pass,
                        Mechanism::Mx {
                            macro_string: Macro::Empty,
                            ip4_cidr_length: 32,
                            ip6_cidr_length: 128,
                        },
                    ),
                    Directive::new(
                        Qualifier::Pass,
                        Mechanism::Exists {
                            macro_string: Macro::List(vec![
                                Macro::Variable {
                                    letter: Variable::SenderLocalPart,
                                    num_parts: 0,
                                    reverse: false,
                                    escape: false,
                                    delimiters: 1u64 << (b'.' - b'+'),
                                },
                                Macro::Literal(b"._%20spf_ verify%.".to_vec()),
                                Macro::Variable {
                                    letter: Variable::Domain,
                                    num_parts: 0,
                                    reverse: false,
                                    escape: false,
                                    delimiters: 1u64 << (b'.' - b'+'),
                                },
                            ]),
                        },
                    ),
                    Directive::new(Qualifier::Fail, Mechanism::All),
                ],
            },
        ),
        (
            "v=spf1 mx redirect=%{l1r+}._at_.%{o,=_/}._spf.%{d}",
            SPF {
                version: Version::Spf1,
                modifiers: vec![Modifier::Redirect(Macro::List(vec![
                    Macro::Variable {
                        letter: Variable::SenderLocalPart,
                        num_parts: 1,
                        reverse: true,
                        escape: false,
                        delimiters: 1u64 << (b'+' - b'+'),
                    },
                    Macro::Literal(b"._at_.".to_vec()),
                    Macro::Variable {
                        letter: Variable::SenderDomainPart,
                        num_parts: 0,
                        reverse: false,
                        escape: false,
                        delimiters: 1u64 << (b',' - b'+')
                            | 1u64 << (b'=' - b'+')
                            | 1u64 << (b'_' - b'+')
                            | 1u64 << (b'/' - b'+'),
                    },
                    Macro::Literal(b"._spf.".to_vec()),
                    Macro::Variable {
                        letter: Variable::Domain,
                        num_parts: 0,
                        reverse: false,
                        escape: false,
                        delimiters: 1u64 << (b'.' - b'+'),
                    },
                ]))],
                directives: vec![Directive::new(
                    Qualifier::Pass,
                    Mechanism::Mx {
                        macro_string: Macro::Empty,
                        ip4_cidr_length: 32,
                        ip6_cidr_length: 128,
                    },
                )],
            },
        ),
        (
            "v=spf1 -ip4:192.0.2.0/24 a//96 +all",
            SPF {
                version: Version::Spf1,
                modifiers: vec![],
                directives: vec![
                    Directive::new(
                        Qualifier::Fail,
                        Mechanism::Ip4 {
                            addr: [192, 0, 2, 0],
                            cidr_length: 24,
                        },
                    ),
                    Directive::new(
                        Qualifier::Pass,
                        Mechanism::A {
                            macro_string: Macro::Empty,
                            ip4_cidr_length: 32,
                            ip6_cidr_length: 96,
                        },
                    ),
                    Directive::new(Qualifier::Pass, Mechanism::All),
                ],
            },
        ),
        (
            "v=spf1 +mx/11//100 ~a:domain.com/12/123 ?ip6:::1 -ip6:a::b/111 ip6:1080::8:800:68.0.3.1/96 ",
            SPF {
                version: Version::Spf1,
                modifiers: vec![],
                directives: vec![
                    Directive::new(
                        Qualifier::Pass,
                        Mechanism::Mx {
                            macro_string: Macro::Empty,
                            ip4_cidr_length: 11,
                            ip6_cidr_length: 100,
                        },
                    ),
                    Directive::new(
                        Qualifier::SoftFail,
                        Mechanism::A {
                            macro_string: Macro::Literal(b"domain.com".to_vec()),
                            ip4_cidr_length: 12,
                            ip6_cidr_length: 123,
                        },
                    ),
                    Directive::new(
                        Qualifier::Neutral,
                        Mechanism::Ip6 {
                            addr: [0, 0, 0, 0, 0, 0, 0, 1],
                            cidr_length: 128,
                        },
                    ),
                    Directive::new(
                        Qualifier::Fail,
                        Mechanism::Ip6 {
                            addr: [0xa, 0, 0, 0, 0, 0, 0, 0xb],
                            cidr_length: 111,
                        },
                    ),
                    Directive::new(
                        Qualifier::Pass,
                        Mechanism::Ip6 {
                            addr: [0x1080, 0, 0, 0, 0x8, 0x800, 0x4400, 0x0301],
                            cidr_length: 96,
                        },
                    ),
                ],
            },
        ),
    ] {
        assert_eq!(
            SPF::parse(record.as_bytes())
                .unwrap_or_else(|err| panic!("{:?} : {:?}", record, err)),
            expected_result,
            "{}",
            record
        );
    }
}

#[test]
fn parse_ip6() {
    for (test, expected) in [
        (
            "ABCD:EF01:2345:6789:ABCD:EF01:2345:6789",
            [0xabcd, 0xef01, 0x2345, 0x6789, 0xabcd, 0xef01, 0x2345, 0x6789],
        ),
        (
            "2001:DB8:0:0:8:800:200C:417A",
            [0x2001, 0xdb8, 0, 0, 0x8, 0x800, 0x200c, 0x417a],
        ),
        ("FF01:0:0:0:0:0:0:101", [0xff01, 0, 0, 0, 0, 0, 0, 0x101]),
        ("0:0:0:0:0:0:0:1", [0, 0, 0, 0, 0, 0, 0, 1]),
        ("0:0:0:0:0:0:0:0", [0, 0, 0, 0, 0, 0, 0, 0]),
        (
            "2001:DB8::8:800:200C:417A",
            [0x2001, 0xdb8, 0, 0, 0x8, 0x800, 0x200c, 0x417a],
        ),
        (
            "2001:DB8:0:0:8:800:200C::",
            [0x2001, 0xdb8, 0, 0, 0x8, 0x800, 0x200c, 0],
        ),
        ("FF01::101", [0xff01, 0, 0, 0, 0, 0, 0, 0x101]),
        ("::1", [0, 0, 0, 0, 0, 0, 0, 1]),
        ("::", [0, 0, 0, 0, 0, 0, 0, 0]),
        ("a:b::c:d", [0xa, 0xb, 0, 0, 0, 0, 0xc, 0xd]),
        ("a::c:d", [0xa, 0, 0, 0, 0, 0, 0xc, 0xd]),
        ("a:b:c::d", [0xa, 0xb, 0xc, 0, 0, 0, 0, 0xd]),
        ("::c:d", [0, 0, 0, 0, 0, 0, 0xc, 0xd]),
        ("0:0:0:0:0:0:13.1.68.3", [0, 0, 0, 0, 0, 0, 0x0d01, 0x4403]),
        (
            "0:0:0:0:0:FFFF:129.144.52.38",
            [0, 0, 0, 0, 0, 0xffff, 0x8190, 0x3426],
        ),
        ("::13.1.68.3", [0, 0, 0, 0, 0, 0, 0x0d01, 0x4403]),
        ("::FFFF:129.144.52.38", [0, 0, 0, 0, 0, 0xffff, 0x8190, 0x3426]),
    ] {
        for test in [test.to_string(), format!("{} ", test)] {
            let (ip, stop_char) = Cursor::new(test.as_bytes())
                .ip6()
                .unwrap_or_else(|err| panic!("{:?} : {:?}", test, err));
            assert_eq!(stop_char, b' ', "{}", test);
            assert_eq!(ip, expected, "{}", test);
        }
    }

    for invalid_test in [
        "0:0:0:0:0:0:0:1:1",
        "0:0:0:0:0:0:13.1.68.3.4",
        "::0:0:0:0:0:0:0:0",
        "0:0:0:0::0:0:0:0",
        " ",
        "",
    ] {
        assert!(
            Cursor::new(invalid_test.as_bytes()).ip6().is_err(),
            "{}",
            invalid_test
        );
    }
}

#[test]
fn parse_ip4() {
    for (test, expected) in [
        ("0.0.0.0", [0u8, 0, 0, 0]),
        ("255.255.255.255", [255, 255, 255, 255]),
        ("13.1.68.3", [13, 1, 68, 3]),
        ("129.144.52.38", [129, 144, 52, 38]),
    ] {
        for test in [test.to_string(), format!("{} ", test)] {
            let (ip, stop_char) = Cursor::new(test.as_bytes())
                .ip4()
                .unwrap_or_else(|err| panic!("{:?} : {:?}", test, err));
            assert_eq!(stop_char, b' ', "{}", test);
            assert_eq!(ip, expected, "{}", test);
        }
    }
}
