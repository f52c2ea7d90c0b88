use mail_auth::common::cursor::Cursor;
use mail_auth::common::tag::{UNMATCHED, V};
use mail_auth::spf::term::{A, ALL, EXISTS, EXP, INCLUDE, IP4, IP6, MX, PTR, REDIRECT};
use mail_auth::spf::{Directive, Error, Macro, Mechanism, Modifier, Qualifier, Variable, Version, SPF};

fn dot() -> u64 {
    1u64 << (b'.' - b'+')
}

fn variable(letter: Variable) -> Macro {
    Macro::Variable {
        letter,
        num_parts: 0,
        reverse: false,
        escape: false,
        delimiters: dot(),
    }
}

fn packed(word: &str) -> u64 {
    let mut id = 0u64;
    for (n, ch) in word.bytes().enumerate() {
        id |= (ch as u64) << (8 * n);
    }
    id
}

#[test]
fn qualifier_matches_prefix_symbol() {
    for (symbol, qualifier) in [
        ("+", Qualifier::Pass),
        ("-", Qualifier::Fail),
        ("~", Qualifier::SoftFail),
        ("?", Qualifier::Neutral),
        ("", Qualifier::Pass),
    ] {
        let record = format!("v=spf1 {}all", symbol);
        let spf = SPF::parse(record.as_bytes()).unwrap();
        assert_eq!(
            spf.directives,
            vec![Directive::new(qualifier, Mechanism::All)],
            "{}",
            record
        );
    }
}

#[test]
fn qualifier_applies_to_every_mechanism() {
    let spf = SPF::parse(b"v=spf1 ~mx ?a -ptr +ip4:10.0.0.1 -include:example.com").unwrap();
    let qualifiers: Vec<Qualifier> = spf.directives.iter().map(|d| d.qualifier).collect();
    assert_eq!(
        qualifiers,
        vec![
            Qualifier::SoftFail,
            Qualifier::Neutral,
            Qualifier::Fail,
            Qualifier::Pass,
            Qualifier::Fail
        ]
    );
}

#[test]
fn cidr_lengths_default_and_clamp() {
    let spf = SPF::parse(b"v=spf1 a//96 +all").unwrap();
    assert_eq!(
        spf.directives[0],
        Directive::new(
            Qualifier::Pass,
            Mechanism::A {
                macro_string: Macro::Empty,
                ip4_cidr_length: 32,
                ip6_cidr_length: 96,
            }
        )
    );

    let spf = SPF::parse(b"v=spf1 a/64//200 mx/33 ip4:10.0.0.0/40 ip6:::1/129 ip4:1.2.3.4/8").unwrap();
    assert_eq!(
        spf.directives,
        vec![
            Directive::new(
                Qualifier::Pass,
                Mechanism::A {
                    macro_string: Macro::Empty,
                    ip4_cidr_length: 32,
                    ip6_cidr_length: 128,
                }
            ),
            Directive::new(
                Qualifier::Pass,
                Mechanism::Mx {
                    macro_string: Macro::Empty,
                    ip4_cidr_length: 32,
                    ip6_cidr_length: 128,
                }
            ),
            Directive::new(
                Qualifier::Pass,
                Mechanism::Ip4 {
                    addr: [10, 0, 0, 0],
                    cidr_length: 32,
                }
            ),
            Directive::new(
                Qualifier::Pass,
                Mechanism::Ip6 {
                    addr: [0, 0, 0, 0, 0, 0, 0, 1],
                    cidr_length: 128,
                }
            ),
            Directive::new(
                Qualifier::Pass,
                Mechanism::Ip4 {
                    addr: [1, 2, 3, 4],
                    cidr_length: 8,
                }
            ),
        ]
    );
}

#[test]
fn dual_cidr_length_values() {
    assert_eq!(Cursor::new(b"").dual_cidr_length(), Ok((32, 128)));
    assert_eq!(Cursor::new(b" rest").dual_cidr_length(), Ok((32, 128)));
    assert_eq!(Cursor::new(b"24").dual_cidr_length(), Ok((24, 128)));
    assert_eq!(Cursor::new(b"24/64").dual_cidr_length(), Ok((24, 64)));
    assert_eq!(Cursor::new(b"24//64 ").dual_cidr_length(), Ok((24, 64)));
    assert_eq!(Cursor::new(b"/96").dual_cidr_length(), Ok((32, 96)));
    assert_eq!(Cursor::new(b"0/0").dual_cidr_length(), Ok((0, 0)));
    assert_eq!(Cursor::new(b"999/999").dual_cidr_length(), Ok((32, 128)));
    assert_eq!(Cursor::new(b"2550 ").dual_cidr_length(), Ok((32, 128)));
    assert_eq!(Cursor::new(b"255").dual_cidr_length(), Ok((32, 128)));
    assert_eq!(Cursor::new(b"2550/2550").dual_cidr_length(), Ok((32, 128)));
    assert_eq!(Cursor::new(b"25500000000000000000003").dual_cidr_length(), Ok((32, 128)));
    assert_eq!(Cursor::new(b"/25500000000000000000003").dual_cidr_length(), Ok((32, 128)));
    assert_eq!(Cursor::new(b"2551/1280").dual_cidr_length(), Ok((32, 128)));
    assert_eq!(Cursor::new(b"031/0127").dual_cidr_length(), Ok((31, 127)));
    assert_eq!(Cursor::new(b"32/128").dual_cidr_length(), Ok((32, 128)));
    assert_eq!(Cursor::new(b"/").dual_cidr_length(), Ok((32, 128)));
    assert_eq!(Cursor::new(b"//").dual_cidr_length(), Ok((32, 128)));
    assert_eq!(Cursor::new(b"/255/").dual_cidr_length(), Err(Error::ParseFailed));
    assert_eq!(Cursor::new(b"24/64/").dual_cidr_length(), Err(Error::ParseFailed));
    assert_eq!(Cursor::new(b"2x").dual_cidr_length(), Err(Error::ParseFailed));
}

#[test]
fn length_past_255_does_not_start_afresh() {
    let spf = SPF::parse(b"v=spf1 a/2550 mx//2550 a:example.org/2559/2559 -all").unwrap();
    assert_eq!(
        spf.directives,
        vec![
            Directive::new(
                Qualifier::Pass,
                Mechanism::A {
                    macro_string: Macro::Empty,
                    ip4_cidr_length: 32,
                    ip6_cidr_length: 128,
                }
            ),
            Directive::new(
                Qualifier::Pass,
                Mechanism::Mx {
                    macro_string: Macro::Empty,
                    ip4_cidr_length: 32,
                    ip6_cidr_length: 128,
                }
            ),
            Directive::new(
                Qualifier::Pass,
                Mechanism::A {
                    macro_string: Macro::Literal(b"example.org".to_vec()),
                    ip4_cidr_length: 32,
                    ip6_cidr_length: 128,
                }
            ),
            Directive::new(Qualifier::Fail, Mechanism::All),
        ]
    );
}

#[test]
fn address_without_written_length_has_the_default() {
    let spf = SPF::parse(b"v=spf1 ip4:1.2.3.4/ ip6:::1/ ip4:1.2.3.4/0 ip6:::1/0 ip4:1.2.3.4/2550 ip6:::1/1290").unwrap();
    assert_eq!(
        spf.directives,
        vec![
            Directive::new(
                Qualifier::Pass,
                Mechanism::Ip4 {
                    addr: [1, 2, 3, 4],
                    cidr_length: 32,
                }
            ),
            Directive::new(
                Qualifier::Pass,
                Mechanism::Ip6 {
                    addr: [0, 0, 0, 0, 0, 0, 0, 1],
                    cidr_length: 128,
                }
            ),
            Directive::new(
                Qualifier::Pass,
                Mechanism::Ip4 {
                    addr: [1, 2, 3, 4],
                    cidr_length: 0,
                }
            ),
            Directive::new(
                Qualifier::Pass,
                Mechanism::Ip6 {
                    addr: [0, 0, 0, 0, 0, 0, 0, 1],
                    cidr_length: 0,
                }
            ),
            Directive::new(
                Qualifier::Pass,
                Mechanism::Ip4 {
                    addr: [1, 2, 3, 4],
                    cidr_length: 32,
                }
            ),
            Directive::new(
                Qualifier::Pass,
                Mechanism::Ip6 {
                    addr: [0, 0, 0, 0, 0, 0, 0, 1],
                    cidr_length: 128,
                }
            ),
        ]
    );
    assert_eq!(SPF::parse(b"v=spf1 ip4:1.2.3.4/x"), Err(Error::ParseFailed));
}

#[test]
fn cidr_length_values() {
    assert_eq!(Cursor::new(b"24 ").cidr_length(), Ok(24));
    assert_eq!(Cursor::new(b"").cidr_length(), Ok(0));
    assert_eq!(Cursor::new(b"128").cidr_length(), Ok(128));
    assert_eq!(Cursor::new(b"256").cidr_length(), Ok(255));
    assert_eq!(Cursor::new(b"99999").cidr_length(), Ok(255));
    assert_eq!(Cursor::new(b"24/").cidr_length(), Err(Error::ParseFailed));
    let mut cursor = Cursor::new(b"12 34");
    assert_eq!(cursor.cidr_length(), Ok(12));
    assert_eq!(cursor.position(), 3);
    assert_eq!(cursor.cidr_length(), Ok(34));
    assert_eq!(cursor.position(), 5);
}

#[test]
fn ip4_edge_cases() {
    assert_eq!(Cursor::new(b"1.2.3.4/24").ip4(), Ok(([1, 2, 3, 4], b'/')));
    assert_eq!(Cursor::new(b"1.2.3.4\t").ip4(), Ok(([1, 2, 3, 4], b' ')));
    assert_eq!(Cursor::new(b"1.2.3.4.5").ip4(), Ok(([1, 2, 3, 4], b'.')));
    assert_eq!(Cursor::new(b"300.2.3.4000").ip4(), Ok(([255, 2, 3, 255], b' ')));
    assert_eq!(Cursor::new(b"...").ip4(), Ok(([0, 0, 0, 0], b' ')));
    assert_eq!(Cursor::new(b"1.2.3").ip4(), Err(Error::InvalidIp4));
    assert_eq!(Cursor::new(b"").ip4(), Err(Error::InvalidIp4));
    assert_eq!(Cursor::new(b"1.2x3.4").ip4(), Err(Error::InvalidIp4));
}

#[test]
fn ip6_edge_cases() {
    assert_eq!(
        Cursor::new(b"2001:db8::1/64").ip6(),
        Ok(([0x2001, 0xdb8, 0, 0, 0, 0, 0, 1], b'/'))
    );
    assert_eq!(
        Cursor::new(b"1:2:3:4:5:6::").ip6(),
        Ok(([1, 2, 3, 4, 5, 6, 0, 0], b' '))
    );
    assert_eq!(
        Cursor::new(b"::2:3:4:5:6:7").ip6(),
        Ok(([0, 0, 2, 3, 4, 5, 6, 7], b' '))
    );
    assert_eq!(
        Cursor::new(b"1:2:3:4:5:6:1.2.3.4").ip6(),
        Ok(([1, 2, 3, 4, 5, 6, 0x0102, 0x0304], b' '))
    );
    assert_eq!(
        Cursor::new(b"1:2::255.0.10.255/96").ip6(),
        Ok(([1, 2, 0, 0, 0, 0, 0xff00, 0x0aff], b'/'))
    );
    assert_eq!(
        Cursor::new(b"1:2:3").ip6(),
        Ok(([1, 2, 3, 0, 0, 0, 0, 0], b' '))
    );
    assert_eq!(
        Cursor::new(b":1").ip6(),
        Ok(([0, 0, 0, 0, 0, 0, 0, 1], b' '))
    );
    for invalid in [
        "12345::",
        "1::2::3",
        "1:2:3:4:5:6:7::8",
        "::1:2:3:4:5:6:7",
        "::1.2.3",
        "::1.2.3.256",
        "::1.2.3.a",
        "1.2.3.4.5",
        "1.2:3.4",
        "1.2.3.4",
        "1:2.",
        "1:2:1.2.3.4",
        "1:2:3:4:5:1.2.3.4",
        "1:2:3:4:5:6:7:1.2.3.4",
        "1:2:3:4:5::1.2.3.4",
        "::1.2.3.",
        "::1.2.3.4:5",
        "::1.2.3.4::",
        "1.2.3.4::",
        "1.2.3.4::5",
        "::1.2.3.4.5",
        "::0001.2.3.4000",
        "g",
        "1:2:3:4:5:6:7:8::",
    ] {
        assert_eq!(
            Cursor::new(invalid.as_bytes()).ip6(),
            Err(Error::InvalidIp6),
            "{}",
            invalid
        );
    }
}

#[test]
fn next_term_packs_keywords() {
    for (word, id) in [
        ("a", A),
        ("mx", MX),
        ("all", ALL),
        ("ptr", PTR),
        ("ip4", IP4),
        ("ip6", IP6),
        ("exp", EXP),
        ("exists", EXISTS),
        ("include", INCLUDE),
        ("redirect", REDIRECT),
    ] {
        assert_eq!(id, packed(word), "{}", word);
        let text = format!("{} ", word);
        assert_eq!(
            Cursor::new(text.as_bytes()).next_term(),
            Some((id, Qualifier::Pass, b' ')),
            "{}",
            word
        );
        let upper = format!("-{}:", word.to_uppercase());
        assert_eq!(
            Cursor::new(upper.as_bytes()).next_term(),
            Some((id, Qualifier::Fail, b':')),
            "{}",
            word
        );
    }
    assert_eq!(V, packed("v"));
}

#[test]
fn next_term_edge_cases() {
    assert_eq!(Cursor::new(b"").next_term(), None);
    assert_eq!(Cursor::new(b"   ").next_term(), None);
    assert_eq!(Cursor::new(b"-").next_term(), None);
    assert_eq!(Cursor::new(b" ~ \t").next_term(), None);
    assert_eq!(
        Cursor::new(b":x").next_term(),
        Some((UNMATCHED, Qualifier::Pass, b':'))
    );
    assert_eq!(
        Cursor::new(b" -=x").next_term(),
        Some((UNMATCHED, Qualifier::Fail, b'='))
    );
    assert_eq!(
        Cursor::new(b"/24").next_term(),
        Some((UNMATCHED, Qualifier::Pass, b'/'))
    );
    assert_eq!(
        Cursor::new(b"  ~all").next_term(),
        Some((ALL, Qualifier::SoftFail, b' '))
    );
    assert_eq!(
        Cursor::new(b"redirect=x").next_term(),
        Some((REDIRECT, Qualifier::Pass, b'='))
    );
    assert_eq!(
        Cursor::new(b"mx/24").next_term(),
        Some((MX, Qualifier::Pass, b'/'))
    );
    assert_eq!(
        Cursor::new(b"redirects=x").next_term(),
        Some((UNMATCHED, Qualifier::Pass, b'='))
    );
    assert_eq!(
        Cursor::new(b"a1:x").next_term(),
        Some((UNMATCHED, Qualifier::Pass, b':'))
    );
    assert_eq!(
        Cursor::new(b"a-b ").next_term(),
        Some((UNMATCHED, Qualifier::Pass, b' '))
    );
    let mut cursor = Cursor::new(b"?mx -all");
    assert_eq!(cursor.next_term(), Some((MX, Qualifier::Neutral, b' ')));
    assert_eq!(cursor.position(), 4);
    assert_eq!(cursor.next_term(), Some((ALL, Qualifier::Fail, b' ')));
    assert_eq!(cursor.next_term(), None);
}

#[test]
fn macro_expansion() {
    assert_eq!(
        Cursor::new(b"%{l1r+}.%{d}").macro_string(false),
        Ok((
            Macro::List(vec![
                Macro::Variable {
                    letter: Variable::SenderLocalPart,
                    num_parts: 1,
                    reverse: true,
                    escape: false,
                    delimiters: 1u64 << (b'+' - b'+'),
                },
                Macro::Literal(b".".to_vec()),
                Macro::Variable {
                    letter: Variable::Domain,
                    num_parts: 0,
                    reverse: false,
                    escape: false,
                    delimiters: 1u64 << (b'.' - b'+'),
                },
            ]),
            b' '
        ))
    );
    assert_eq!(
        Cursor::new(b"%%").macro_string(false),
        Ok((Macro::Literal(b"%".to_vec()), b' '))
    );
    assert_eq!(
        Cursor::new(b"%_").macro_string(false),
        Ok((Macro::Literal(b" ".to_vec()), b' '))
    );
    assert_eq!(
        Cursor::new(b"%-").macro_string(false),
        Ok((Macro::Literal(b"%20".to_vec()), b' '))
    );
}

#[test]
fn macro_delimiters_and_parts() {
    for (ch, bit) in [
        (b'+', 0u32),
        (b',', 1),
        (b'-', 2),
        (b'.', 3),
        (b'/', 4),
        (b'=', 18),
        (b'_', 52),
    ] {
        let text = [b'%', b'{', b'd', ch, b'}'];
        assert_eq!(
            Cursor::new(&text).macro_string(false),
            Ok((
                Macro::Variable {
                    letter: Variable::Domain,
                    num_parts: 0,
                    reverse: false,
                    escape: false,
                    delimiters: 1u64 << bit,
                },
                b' '
            ))
        );
        assert_eq!(bit, (ch - b'+') as u32);
    }
    assert_eq!(
        Cursor::new(b"%{D12R..-}/24").macro_string(false),
        Ok((
            Macro::Variable {
                letter: Variable::Domain,
                num_parts: 12,
                reverse: true,
                escape: true,
                delimiters: (1u64 << 3) | (1u64 << 2),
            },
            b'/'
        ))
    );
    assert_eq!(
        Cursor::new(b"%{s99999999999}").macro_string(false),
        Ok((
            Macro::Variable {
                letter: Variable::Sender,
                num_parts: u32::MAX,
                reverse: false,
                escape: false,
                delimiters: dot(),
            },
            b' '
        ))
    );
}

#[test]
fn macro_stops_and_literals() {
    let mut cursor = Cursor::new(b"example.com/24 next");
    assert_eq!(
        cursor.macro_string(false),
        Ok((Macro::Literal(b"example.com".to_vec()), b'/'))
    );
    assert_eq!(cursor.position(), 12);
    let mut cursor = Cursor::new(b"example.com\tnext");
    assert_eq!(
        cursor.macro_string(false),
        Ok((Macro::Literal(b"example.com".to_vec()), b' '))
    );
    assert_eq!(cursor.position(), 12);
    assert_eq!(
        Cursor::new(b"a b/c").macro_string(true),
        Ok((Macro::Literal(b"a b/c".to_vec()), b' '))
    );
    assert_eq!(
        Cursor::new(b"%{d}").macro_string(false),
        Ok((variable(Variable::Domain), b' '))
    );
    assert_eq!(
        Cursor::new(b"a%{d}b").macro_string(false),
        Ok((
            Macro::List(vec![
                Macro::Literal(b"a".to_vec()),
                variable(Variable::Domain),
                Macro::Literal(b"b".to_vec()),
            ]),
            b' '
        ))
    );
}

#[test]
fn macro_errors() {
    assert_eq!(Cursor::new(b"").macro_string(false), Err(Error::ParseFailed));
    assert_eq!(Cursor::new(b" x").macro_string(false), Err(Error::ParseFailed));
    assert_eq!(Cursor::new(b"/x").macro_string(false), Err(Error::ParseFailed));
    assert_eq!(Cursor::new(b"%x").macro_string(false), Err(Error::InvalidMacro));
    assert_eq!(Cursor::new(b"% ").macro_string(false), Err(Error::InvalidMacro));
    assert_eq!(Cursor::new(b"%{").macro_string(false), Err(Error::InvalidMacro));
    assert_eq!(Cursor::new(b"%{x}").macro_string(false), Err(Error::InvalidMacro));
    assert_eq!(Cursor::new(b"%{d").macro_string(false), Err(Error::InvalidMacro));
    assert_eq!(Cursor::new(b"%{d1r").macro_string(false), Err(Error::InvalidMacro));
    assert_eq!(Cursor::new(b"%{d!}").macro_string(false), Err(Error::InvalidMacro));
    assert_eq!(Cursor::new(b"%{c}").macro_string(false), Err(Error::InvalidMacro));
}

#[test]
fn variable_letters() {
    for (ch, letter) in [
        (b's', Variable::Sender),
        (b'l', Variable::SenderLocalPart),
        (b'o', Variable::SenderDomainPart),
        (b'd', Variable::Domain),
        (b'i', Variable::Ip),
        (b'p', Variable::ValidatedDomain),
        (b'v', Variable::IpVersion),
        (b'h', Variable::HeloDomain),
    ] {
        assert_eq!(Variable::parse(ch), Some((letter, false)));
        assert_eq!(Variable::parse(ch.to_ascii_uppercase()), Some((letter, true)));
        assert_eq!(Variable::parse_exp(ch), Some((letter, false)));
        assert_eq!(Variable::parse_exp(ch.to_ascii_uppercase()), Some((letter, true)));
    }
    for (ch, letter) in [
        (b'c', Variable::SmtpIp),
        (b'r', Variable::HostDomain),
        (b't', Variable::CurrentTime),
    ] {
        assert_eq!(Variable::parse(ch), None);
        assert_eq!(Variable::parse(ch.to_ascii_uppercase()), None);
        assert_eq!(Variable::parse_exp(ch), Some((letter, false)));
        assert_eq!(Variable::parse_exp(ch.to_ascii_uppercase()), Some((letter, true)));
    }
    for ch in [b'x', b'X', b'0', b'{', b' ', 0u8, 0x93, 0xff] {
        assert_eq!(Variable::parse(ch), None);
        assert_eq!(Variable::parse_exp(ch), None);
    }
    assert_eq!(
        Cursor::new(b"%{c}.%{R}.%{t}").macro_string(true),
        Ok((
            Macro::List(vec![
                variable(Variable::SmtpIp),
                Macro::Literal(b".".to_vec()),
                Macro::Variable {
                    letter: Variable::HostDomain,
                    num_parts: 0,
                    reverse: false,
                    escape: true,
                    delimiters: dot(),
                },
                Macro::Literal(b".".to_vec()),
                variable(Variable::CurrentTime),
            ]),
            b' '
        ))
    );
}

#[test]
fn parsing_twice_gives_equal_records() {
    for record in [
        "v=spf1 +mx a:colo.example.com/28 -all",
        "v=spf1 exists:%{ir}.%{l1r+-}._spf.%{d} -all exp=explain._spf.%{d}",
        "v=spf1 ip6:1080::8:800:68.0.3.1/96 redirect=_spf.example.com",
        "v=spf1 include:%{x}",
        "v=spf2 -all",
        "",
    ] {
        assert_eq!(
            SPF::parse(record.as_bytes()),
            SPF::parse(record.as_bytes()),
            "{}",
            record
        );
    }
}

#[test]
fn unknown_keyword_is_dropped() {
    let expected = SPF {
        version: Version::Spf1,
        directives: vec![Directive::new(Qualifier::Fail, Mechanism::All)],
        modifiers: vec![],
    };
    assert_eq!(SPF::parse(b"v=spf1 unknown:foo -all"), Ok(expected));
    let expected = SPF {
        version: Version::Spf1,
        directives: vec![Directive::new(Qualifier::Fail, Mechanism::All)],
        modifiers: vec![],
    };
    assert_eq!(SPF::parse(b"v=spf1 foo=%{d} bar/24 toolongkeyword:x -all"), Ok(expected));
    let expected = SPF {
        version: Version::Spf1,
        directives: vec![Directive::new(Qualifier::Fail, Mechanism::All)],
        modifiers: vec![],
    };
    assert_eq!(SPF::parse(b"v=spf1 unknown -all"), Ok(expected));
    assert_eq!(SPF::parse(b"v=spf1 unknown:%{x} -all"), Err(Error::InvalidMacro));
    assert_eq!(SPF::parse(b"v=spf1 unknown: -all"), Err(Error::ParseFailed));
    assert_eq!(SPF::parse(b"v=spf1 unknown:a/b -all"), Err(Error::ParseFailed));
}

#[test]
fn argument_without_keyword_ends_no_record() {
    let expected = SPF {
        version: Version::Spf1,
        directives: vec![
            Directive::new(
                Qualifier::Pass,
                Mechanism::Mx {
                    macro_string: Macro::Empty,
                    ip4_cidr_length: 32,
                    ip6_cidr_length: 128,
                },
            ),
            Directive::new(Qualifier::Fail, Mechanism::All),
        ],
        modifiers: vec![],
    };
    assert_eq!(SPF::parse(b"v=spf1 mx =x -all"), Ok(expected));
    let expected = SPF {
        version: Version::Spf1,
        directives: vec![Directive::new(Qualifier::Fail, Mechanism::All)],
        modifiers: vec![],
    };
    assert_eq!(SPF::parse(b"v=spf1 :example.org /24 -all"), Ok(expected));
    assert_eq!(SPF::parse(b"v=spf1 mx : -all"), Err(Error::ParseFailed));
    assert_eq!(SPF::parse(b"v=spf1 mx =%{x} -all"), Err(Error::InvalidMacro));
}

#[test]
fn address_length_values() {
    assert_eq!(Cursor::new(b"24 ").address_length(32), Ok(24));
    assert_eq!(Cursor::new(b"24").address_length(128), Ok(24));
    assert_eq!(Cursor::new(b"0").address_length(32), Ok(0));
    assert_eq!(Cursor::new(b"").address_length(32), Ok(32));
    assert_eq!(Cursor::new(b" x").address_length(128), Ok(128));
    assert_eq!(Cursor::new(b"33").address_length(32), Ok(32));
    assert_eq!(Cursor::new(b"129").address_length(128), Ok(128));
    assert_eq!(Cursor::new(b"2550").address_length(32), Ok(32));
    assert_eq!(Cursor::new(b"99999999999999999999").address_length(128), Ok(128));
    assert_eq!(Cursor::new(b"x").address_length(32), Err(Error::ParseFailed));
    assert_eq!(Cursor::new(b"2/").address_length(32), Err(Error::ParseFailed));
    let mut cursor = Cursor::new(b"12 34");
    assert_eq!(cursor.address_length(32), Ok(12));
    assert_eq!(cursor.position(), 3);
}

#[test]
fn record_version() {
    assert_eq!(SPF::parse(b""), Err(Error::InvalidRecord));
    assert_eq!(SPF::parse(b"spf1 -all"), Err(Error::InvalidRecord));
    assert_eq!(SPF::parse(b"a=spf1 -all"), Err(Error::InvalidRecord));
    assert_eq!(SPF::parse(b"v1=spf1 -all"), Err(Error::InvalidRecord));
    assert_eq!(SPF::parse(b"v=spf2 -all"), Err(Error::InvalidVersion));
    assert_eq!(SPF::parse(b"v=spf10 -all"), Err(Error::InvalidVersion));
    assert_eq!(SPF::parse(b"v=spf1-all"), Err(Error::InvalidVersion));
    assert_eq!(SPF::parse(b"v=spf"), Err(Error::InvalidVersion));
    assert_eq!(SPF::parse(b"v= spf1 -all"), Err(Error::InvalidVersion));
    let expected = SPF {
        version: Version::Spf1,
        directives: vec![Directive::new(Qualifier::Fail, Mechanism::All)],
        modifiers: vec![],
    };
    assert_eq!(SPF::parse(b"V=SPF1\t-ALL"), Ok(expected));
}

#[test]
fn record_without_terms_is_no_record() {
    assert_eq!(SPF::parse(b"v=spf1"), Err(Error::ParseFailed));
    assert_eq!(SPF::parse(b"v=spf1 "), Err(Error::ParseFailed));
    assert_eq!(SPF::parse(b"v=spf1    \t "), Err(Error::ParseFailed));
    assert_eq!(SPF::parse(b"v=spf1 unknown:foo"), Err(Error::ParseFailed));
    assert_eq!(
        SPF::parse(b"v=spf1 redirect=example.com"),
        Ok(SPF {
            version: Version::Spf1,
            directives: vec![],
            modifiers: vec![Modifier::Redirect(Macro::Literal(b"example.com".to_vec()))],
        })
    );
}

#[test]
fn record_errors() {
    for (record, error) in [
        ("v=spf1 all:x", Error::ParseFailed),
        ("v=spf1 all/24", Error::ParseFailed),
        ("v=spf1 include -all", Error::ParseFailed),
        ("v=spf1 include=example.com", Error::ParseFailed),
        ("v=spf1 include: -all", Error::ParseFailed),
        ("v=spf1 include:example.com/24", Error::ParseFailed),
        ("v=spf1 exists", Error::ParseFailed),
        ("v=spf1 a: -all", Error::ParseFailed),
        ("v=spf1 a/x", Error::ParseFailed),
        ("v=spf1 a:example.com/24/64/96", Error::ParseFailed),
        ("v=spf1 ptr/24", Error::ParseFailed),
        ("v=spf1 ptr:example.com/24", Error::ParseFailed),
        ("v=spf1 ip4 -all", Error::ParseFailed),
        ("v=spf1 ip4:1.2.3.4.5", Error::ParseFailed),
        ("v=spf1 ip4:1.2.3.4/2x", Error::ParseFailed),
        ("v=spf1 ip4:1.2.3", Error::InvalidIp4),
        ("v=spf1 ip4:example.com", Error::InvalidIp4),
        ("v=spf1 ip6=::1", Error::ParseFailed),
        ("v=spf1 ip6:::1%", Error::ParseFailed),
        ("v=spf1 ip6:1::2::3", Error::InvalidIp6),
        ("v=spf1 ip6:::1.2.3", Error::InvalidIp6),
        ("v=spf1 exp:example.com", Error::ParseFailed),
        ("v=spf1 redirect", Error::ParseFailed),
        ("v=spf1 redirect=", Error::ParseFailed),
        ("v=spf1 redirect=a/b", Error::ParseFailed),
        ("v=spf1 exists:%{d", Error::InvalidMacro),
        ("v=spf1 exists:%{q}", Error::InvalidMacro),
        ("v=spf1 a:%z -all", Error::InvalidMacro),
        ("v=spf1 -all a:%{d2x}", Error::InvalidMacro),
    ] {
        assert_eq!(SPF::parse(record.as_bytes()), Err(error), "{}", record);
    }
}

#[test]
fn terms_keep_their_order() {
    let spf = SPF::parse(b"v=spf1 exp=a.example ip4:10.0.0.1 redirect=b.example ~all x:y a").unwrap();
    assert_eq!(
        spf.directives,
        vec![
            Directive::new(
                Qualifier::Pass,
                Mechanism::Ip4 {
                    addr: [10, 0, 0, 1],
                    cidr_length: 32,
                }
            ),
            Directive::new(Qualifier::SoftFail, Mechanism::All),
            Directive::new(
                Qualifier::Pass,
                Mechanism::A {
                    macro_string: Macro::Empty,
                    ip4_cidr_length: 32,
                    ip6_cidr_length: 128,
                }
            ),
        ]
    );
    assert_eq!(
        spf.modifiers,
        vec![
            Modifier::Explanation(Macro::Literal(b"a.example".to_vec())),
            Modifier::Redirect(Macro::Literal(b"b.example".to_vec())),
        ]
    );
}

#[test]
fn key_reads_tags() {
    let mut cursor = Cursor::new(b" v = spf1");
    assert_eq!(cursor.key(), Some(V));
    assert_eq!(cursor.position(), 4);
    assert_eq!(Cursor::new(b"bh=x").key(), Some(packed("bh")));
    assert_eq!(Cursor::new(b"BH=x").key(), Some(packed("bh")));
    assert_eq!(Cursor::new(b"x;v=1").key(), Some(V));
    assert_eq!(Cursor::new(b"v1=x").key(), Some(UNMATCHED));
    assert_eq!(Cursor::new(b"abcdefghi=x").key(), Some(UNMATCHED));
    assert_eq!(Cursor::new(b"abcdefgh=x").key(), Some(packed("abcdefgh")));
    assert_eq!(Cursor::new(b"=x").key(), Some(0));
    assert_eq!(Cursor::new(b"novalue").key(), None);
    assert_eq!(Cursor::new(b"").key(), None);
}
