use lib::{parse, parse_dict, parse_number, parse_stream, BNode, Lexer};

#[test]
fn test_parse_number() {
    let raw = ["i256e", "i-1024e"];
    let expected = [256, -1024];
    let len = raw.len();

    for x in 0..len {
        let str = raw[x];

        let lexer = Lexer::new(str.as_bytes());

        let (value, _lexer) = parse_number(lexer).unwrap();
        assert_eq!(expected[x], value);
    }
}

#[test]
fn test_parse_number_failed() {
    let cases = ["i2522", "ie", "i", "i-12-3e", "i13ee"];
    for (i, _) in cases.iter().enumerate() {
        let x = cases[i];
        if parse(x.as_bytes()).is_ok() {
            panic!("{}-th should fail", i);
        }
    }
}

#[test]
fn test_parse_stream() {
    let raw = "7:bencode";

    let lexer = Lexer::new(raw.as_bytes());

    let (stream, _lexer) = parse_stream(lexer).unwrap();
    assert_eq!("bencode".as_bytes(), &stream);
}

#[test]
fn test_parse_stream_failed() {
    let cases = ["5:hello2", "5:halo", "521"];
    for (i, _) in cases.iter().enumerate() {
        let x = cases[i];
        if parse(x.as_bytes()).is_ok() {
            panic!("{}-th should fail", i);
        }
    }
}

#[test]
fn test_parse_list() {
    let cases = ["li256e7:bencodeli256e7:bencodeee", "l4:spami42ee", "le"];
    for (i, _) in cases.iter().enumerate() {
        let x = cases[i];
        match parse(x.as_bytes()) {
            Ok(node) => {
                let mut buf = vec![];
                node.marshal(&mut buf);
                assert_eq!(x.as_bytes(), &buf)
            }
            Err(e) => panic!("{:?}", e),
        }
    }
}

#[test]
fn test_parse_list_failed() {
    let cases = ["l4:halo"];
    for (i, _) in cases.iter().enumerate() {
        let x = cases[i];
        if parse(x.as_bytes()).is_ok() {
            panic!("{}-th should fail", i);
        }
    }
}

#[test]
fn test_parse_nested_list() {
    let raw = "ll5:helloe4:spami42ee";

    let bnode = parse(raw.as_bytes()).unwrap();

    let mut buf = vec![];
    bnode.marshal(&mut buf);

    assert_eq!(raw.as_bytes(), &buf);
}

#[test]
fn test_parse_dict() {
    let raw = "d3:bar4:spam3:fooi42ee";

    let lexer = Lexer::new(raw.as_bytes());

    let (dict, _lexer) = parse_dict(lexer).unwrap();
    assert_eq!(2, dict.len());

    match dict.get("bar").unwrap() {
        BNode::Bytes(stream) => {
            assert_eq!(&stream, &"spam".as_bytes());
        }
        _ => panic!("`bar` should have the value `spam`"),
    }

    match dict.get("foo").unwrap() {
        BNode::Int(iv) => {
            assert_eq!(&42, iv);
        }
        _ => panic!("`foo` should have the value `42`"),
    }
}

#[test]
fn test_parse_dict_failed() {
    let cases = ["d4:haloi23e", "di23e4:haloe"];
    for x in &cases {
        if parse(x.as_bytes()).is_ok() {
            panic!("Should fail");
        }
    }
}

#[test]
fn test_parse_nested_dict() {
    let raw = r#"d8:announce41:http://bttracker.debian.org:6969/announce7:comment35:"Debian CD from cdimage.debian.org"13:creation datei1573903810e9:httpseedsl145:https://cdimage.debian.org/cdimage/release/10.2.0//srv/cdbuilder.debian.org/dst/deb-cd/weekly-builds/amd64/iso-cd/debian-10.2.0-amd64-netinst.iso145:https://cdimage.debian.org/cdimage/archive/10.2.0//srv/cdbuilder.debian.org/dst/deb-cd/weekly-builds/amd64/iso-cd/debian-10.2.0-amd64-netinst.isoe4:infod6:lengthi351272960e4:name31:debian-10.2.0-amd64-netinst.iso12:piece lengthi262144eee"#;

    let bnode = parse(raw.as_bytes()).unwrap();

    let mut buf = Vec::with_capacity(raw.len());
    bnode.marshal(&mut buf);

    assert_eq!(&raw.as_bytes(), &buf);
}
