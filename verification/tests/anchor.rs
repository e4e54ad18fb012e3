use surf_core::{parse_anchor, AnchorParseError, Segment};

    fn seg(name: &str, index: Option<usize>) -> Segment {
        Segment {
            name: name.to_string(),
            index,
        }
    }

    #[test]
    fn qualified_path() {
        let a = parse_anchor("src/auth/refresh.ts > TokenService > rotate").unwrap();
        assert_eq!(a.file, "src/auth/refresh.ts");
        assert_eq!(
            a.segments,
            vec![seg("TokenService", None), seg("rotate", None)]
        );
    }

    #[test]
    fn positional_suffix() {
        let a = parse_anchor("src/auth/refresh.ts > rotate @2").unwrap();
        assert_eq!(a.segments, vec![seg("rotate", Some(2))]);
    }

    #[test]
    fn positional_without_space() {
        let a = parse_anchor("a.rs > rotate@3").unwrap();
        assert_eq!(a.segments, vec![seg("rotate", Some(3))]);
    }

    #[test]
    fn errors() {
        assert_eq!(parse_anchor("   "), Err(AnchorParseError::Empty));
        assert_eq!(
            parse_anchor("src/auth/refresh.ts"),
            Err(AnchorParseError::MissingSymbol)
        );
        assert_eq!(parse_anchor("a.ts > "), Err(AnchorParseError::EmptySegment));
        assert_eq!(
            parse_anchor("a.ts > rotate @0"),
            Err(AnchorParseError::BadIndex("0".to_string()))
        );
        assert_eq!(
            parse_anchor("a.ts > rotate @x"),
            Err(AnchorParseError::BadIndex("x".to_string()))
        );
        assert_eq!(parse_anchor("> rotate"), Err(AnchorParseError::EmptyFile));
    }
