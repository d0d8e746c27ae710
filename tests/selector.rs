use hql::selector::attr::{AttrSelector, ClassSelector, ExtractAttrSelector, IDSelector};
use hql::selector::path::{FlatSelector, Path, PathSelector};
use hql::selector::text::{NthChildSelector, TextSelector, TrimPrefixSelector, TrimSelector, TrimSuffixSelector};
use hql::selector::{try_parse_hql, Rule, SelectorEnum};

#[test]
fn mod_test_parse() {
    let cases: Vec<(&str, Vec<SelectorEnum>)> = vec![
        ("@flat()", vec![FlatSelector::new().into()]),
        ("@path(`/body//div/a`)", vec![PathSelector::new(vec![(Path::Single, "body".into()), (Path::Travel, "div".into()), (Path::Single, "a".into())]).into()]),
        ("@attr(`target`, `_blank`)", vec![AttrSelector::new("target", Some("_blank")).into()]),
        ("@attr(`href`)", vec![AttrSelector::new("href", None).into()]),
        ("@id(`main`)", vec![IDSelector::new("main".into(), true).into()]),
        ("@id(`main`, 1)", vec![IDSelector::new("main".into(), true).into()]),
        ("@id(`main`, 0)", vec![IDSelector::new("main".into(), false).into()]),
        ("@class(`content-body`)", vec![ClassSelector::new("content-body".into(), true).into()]),
        ("@class(`content-body`, 1)", vec![ClassSelector::new("content-body".into(), true).into()]),
        ("@class(`content-body`, 0)", vec![ClassSelector::new("content-body".into(), false).into()]),
        ("#text()", vec![TextSelector::new().into()]),
        ("#trim()", vec![TrimSelector::new().into()]),
        ("#trimPrefix(`hello`)", vec![TrimPrefixSelector::new("hello".into()).into()]),
        ("#trimSuffix(`world`)", vec![TrimSuffixSelector::new("world".into()).into()]),
        ("@child(0)", vec![NthChildSelector::new(0, false).into()]),
        ("@child(-0)", vec![NthChildSelector::new(0, false).into()]),
        ("@child(2)", vec![NthChildSelector::new(2, false).into()]),
        ("@child(-2)", vec![NthChildSelector::new(1, true).into()]),
        ("@flat() | @path(`/body//div/a`) | @attr(`href`) | #text() | #trim()", vec![
            FlatSelector::new().into(),
            PathSelector::new(vec![(Path::Single, "body".into()), (Path::Travel, "div".into()), (Path::Single, "a".into())]).into(),
            AttrSelector::new("href", None).into(),
            TextSelector::new().into(),
            TrimSelector::new().into(),
        ]),
    ];

    for (hql, selectors) in cases {
        let parsed = try_parse_hql(hql).unwrap_or_else(|e| panic!("{:?}", e));
        assert_eq!(parsed, selectors)
    }
}

#[test]
fn parse_extract_attr_and_spacing() {
    let parsed = try_parse_hql("  #attr( `href` )|@child( -1 )\n| @flat ( )").unwrap();
    assert_eq!(
        parsed,
        vec![
            ExtractAttrSelector::new("href").into(),
            NthChildSelector::new(0, true).into(),
            FlatSelector::new().into(),
        ]
    );
}

#[test]
fn parse_error_unknown_expression() {
    let e = try_parse_hql("#child(2)").unwrap_err();
    assert_eq!((e.line, e.col), (1, 1));
    assert_eq!(
        e.expected,
        vec![Rule::FlatExpr, Rule::PathExpr, Rule::AttrExpr, Rule::IdExpr, Rule::ClassExpr, Rule::HelperExpr]
    );
}

#[test]
fn parse_error_positions() {
    let e = try_parse_hql("@child()").unwrap_err();
    assert_eq!((e.line, e.col, e.expected.clone()), (1, 8, vec![Rule::ChildNum]));

    let e = try_parse_hql("@flat()\n @flat()").unwrap_err();
    assert_eq!((e.line, e.col, e.expected.clone()), (2, 2, vec![Rule::EOI, Rule::Pipe]));

    let e = try_parse_hql("@id(`x`, 2)").unwrap_err();
    assert_eq!((e.line, e.col, e.expected.clone()), (1, 10, vec![Rule::CaseSensitiveOpt]));

    let e = try_parse_hql("@path(`body`)").unwrap_err();
    assert_eq!((e.line, e.col, e.expected.clone()), (1, 8, vec![Rule::PathStep]));

    let e = try_parse_hql("@path(`/a//`)").unwrap_err();
    assert_eq!((e.line, e.col, e.expected.clone()), (1, 12, vec![Rule::Tag]));

    let e = try_parse_hql("@attr(``)").unwrap_err();
    assert_eq!((e.line, e.col, e.expected.clone()), (1, 8, vec![Rule::Quoted]));

    let e = try_parse_hql("@flat(").unwrap_err();
    assert_eq!((e.line, e.col, e.expected.clone()), (1, 7, vec![Rule::CloseParen]));

    let e = try_parse_hql("@flat").unwrap_err();
    assert_eq!((e.line, e.col, e.expected.clone()), (1, 6, vec![Rule::OpenParen]));

    let e = try_parse_hql("@child(99999999999999999999999)").unwrap_err();
    assert_eq!((e.line, e.col, e.expected.clone()), (1, 8, vec![Rule::ChildNum]));

    assert!(try_parse_hql("").is_err());
}
