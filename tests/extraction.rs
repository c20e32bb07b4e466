use ssg_parser::common::{float, is_ident, is_ident_pfx, parse_lit, string_literal, string_literal_sq};
use ssg_parser::search::locate;
use ssg_parser::{ssg_ifn, ssg_nuxt};

fn ifn(input: &[u8], anchor: &[u8]) -> Option<Vec<u8>> {
    let finder = ssg_ifn::make_finder_object(anchor);
    ssg_ifn::parse_object(input, &finder, 8)
}

fn nuxt(input: &[u8], anchor: &[u8]) -> Option<Vec<u8>> {
    let finder = ssg_nuxt::make_finder_object(anchor);
    ssg_nuxt::parse_object(input, &finder, 8)
}

#[test]
fn test_find() {
    let finder = ssg_ifn::make_finder_object(b"hello:");
    let data = b"function(a,b){return {hello:{bgga:b,dsa:a},other:\"...\"}}(1,\"qnlcpb\")";
    let json = ssg_ifn::parse_object(data, &finder, 8);
    assert_eq!(json, Some(b"{\"bgga\":\"qnlcpb\",\"dsa\":1}".to_vec()));
}

#[test]
fn arity_mismatch_fails() {
    assert_eq!(ifn(b"function(a,b){return {hello:{x:a}}}(1)", b"hello:"), None);
    assert!(ssg_ifn::parse_vars(b"function(a,b){return {hello:{x:a}}}(1)").is_none());
    assert!(ssg_ifn::parse_vars(b"function(a){return {hello:{x:a}}}(1,2)").is_none());
}

#[test]
fn absent_anchor_fails() {
    assert_eq!(ifn(b"function(a,b){return {hello:{x:a}}}(1,2)", b"world:"), None);
}

#[test]
fn missing_closer_fails() {
    assert_eq!(ifn(b"function(a){return {hello:{x:{y:{z:a}}(1)", b"hello:"), None);
    assert_eq!(ifn(b"function(a){return {hello:{x:[a}}}(1)", b"hello:"), None);
}

#[test]
fn mismatched_closer_fails() {
    assert_eq!(ifn(b"function(a){return {hello:{x:[a}]}}(1)", b"hello:"), None);
    assert_eq!(ifn(b"function(a){return {hello:]}}(1)", b"hello:"), None);
}

#[test]
fn extra_closer_after_object_is_not_read() {
    assert_eq!(ifn(b"function(a){return {hello:{x:a}}}}(1)", b"hello:"), Some(b"{\"x\":1}".to_vec()));
}

#[test]
fn binding_table_pairs_by_position() {
    let (table, body) = ssg_ifn::parse_vars(b"function(a,b,c){return {k:{x:a}}}(1,\"two\",null)").unwrap();
    assert_eq!(table.len(), 3);
    assert_eq!(table.get(b"a"), Some(&b"1".to_vec()));
    assert_eq!(table.get(b"b"), Some(&b"\"two\"".to_vec()));
    assert_eq!(table.get(b"c"), Some(&b"null".to_vec()));
    assert_eq!(table.get(b"d"), None);
    assert_eq!(body, b"{return {k:{x:a}}}");
}

#[test]
fn nested_object_and_array() {
    let data = b"function(a,b,c){return {data:{list:[{n:a},{n:b}],flag:c,name:'s'}}}(-1.5e3,false,true)";
    assert_eq!(
        ifn(data, b"data:"),
        Some(b"{\"list\":[{\"n\":-1.5e3},{\"n\":false}],\"flag\":true,\"name\":'s'}".to_vec())
    );
}

#[test]
fn unbound_value_is_quoted() {
    assert_eq!(ifn(b"function(a){return {k:{x:zz,y:a}}}(2)", b"k:"), Some(b"{\"x\":\"zz\",\"y\":2}".to_vec()));
}

#[test]
fn ifn_skips_whitespace_and_reads_nan() {
    let data = b"function (a, b) {return {k:{x:a,y:b}}}( NaN, undefined )";
    assert_eq!(ifn(data, b"k:"), Some(b"{\"x\":NaN,\"y\":undefined}".to_vec()));
}

#[test]
fn nuxt_wrapped_and_undefined_as_null() {
    let data = b"(function(a,b){return {state:{x:a,y:b}}}(undefined,\"q\"))";
    assert_eq!(nuxt(data, b"state:"), Some(b"{\"x\":null,\"y\":\"q\"}".to_vec()));
    assert_eq!(nuxt(b"function(a){return {state:{x:a}}}(1)", b"state:"), None);
    assert_eq!(nuxt(b"(function(a){return {state:{x:a}}}(NaN))", b"state:"), None);
}

#[test]
fn extraction_is_repeatable() {
    let data = b"function(a,b){return {hello:{bgga:b,dsa:a},other:\"...\"}}(1,\"qnlcpb\")";
    let finder = ssg_ifn::make_finder_object(b"hello:");
    let first = ssg_ifn::parse_object(data, &finder, 8);
    let second = ssg_ifn::parse_object(data, &finder, 0);
    assert_eq!(first, second);
    assert!(first.is_some());
}

#[test]
fn locator_finds_marker_at_each_probe() {
    let finder = ssg_ifn::make_finder_object(b"}}(");
    for len in [60usize, 61, 97, 120] {
        for at in 0..len - 3 {
            let mut hay = vec![b'x'; len];
            hay[at] = b'}';
            hay[at + 1] = b'}';
            hay[at + 2] = b'(';
            assert_eq!(locate(&hay, &finder), Some(at));
        }
        let hay = vec![b'x'; len];
        assert_eq!(locate(&hay, &finder), None);
    }
}

#[test]
fn lexer_reads_numbers() {
    assert_eq!(float(b"12.5e-3,x"), Some((&b",x"[..], &b"12.5e-3"[..])));
    assert_eq!(float(b"-0)"), Some((&b")"[..], &b"-0"[..])));
    assert_eq!(float(b".5"), Some((&b""[..], &b".5"[..])));
    assert_eq!(float(b"1.e"), Some((&b".e"[..], &b"1"[..])));
    assert_eq!(float(b"x1"), None);
    assert_eq!(float(b"-"), None);
}

#[test]
fn lexer_reads_strings() {
    assert_eq!(string_literal(b"\"a\\\"b\"x"), Some((&b"x"[..], &b"\"a\\\"b\""[..])));
    assert_eq!(string_literal(b"\"\""), Some((&b""[..], &b"\"\""[..])));
    assert_eq!(string_literal(b"\"abc"), None);
    assert_eq!(string_literal(b"\"a\\qb\""), None);
    assert_eq!(string_literal_sq(b"'it\\'s',"), Some((&b","[..], &b"'it\\'s'"[..])));
    assert_eq!(string_literal_sq(b"\"x\""), None);
}

#[test]
fn lexer_reads_literals() {
    assert_eq!(parse_lit(b"true,1"), Some((&b"1"[..], &b"true"[..])));
    assert_eq!(parse_lit(b"NaN)"), Some((&b")"[..], &b"NaN"[..])));
    assert_eq!(parse_lit(b"undefined"), Some((&b""[..], &b"undefined"[..])));
    assert_eq!(parse_lit(b"nul"), None);
    assert_eq!(parse_lit(b"x"), None);
    assert_eq!(parse_lit(b""), None);
}

#[test]
fn identifier_bytes() {
    assert!(is_ident(b'a') && is_ident(b'Z') && is_ident(b'7') && is_ident(b'_') && is_ident(b'$'));
    assert!(!is_ident(b'-') && !is_ident(b':'));
    assert!(is_ident_pfx(b'$') && is_ident_pfx(b'q'));
    assert!(!is_ident_pfx(b'7'));
}

#[test]
fn malformed_head_fails() {
    assert_eq!(ifn(b"functio(a){return {k:{x:a}}}(1)", b"k:"), None);
    assert_eq!(ifn(b"function a){return {k:{x:a}}}(1)", b"k:"), None);
    assert_eq!(ifn(b"function(a{return {k:{x:a}}}(1)", b"k:"), None);
    assert_eq!(ifn(b"function(1a){return {k:{x:a}}}(1)", b"k:"), None);
    assert!(ssg_nuxt::parse_vars(b"function(a){return {k:{x:a}}}(1)").is_none());
}

#[test]
fn missing_marker_fails() {
    assert_eq!(ifn(b"function(a){return {k:{x:a}}} (1)", b"k:"), None);
    assert!(ssg_ifn::parse_vars(b"function(a){return {k:{x:a}}").is_none());
}

#[test]
fn malformed_argument_fails() {
    assert_eq!(ifn(b"function(a){return {k:{x:a}}}(\"open)", b"k:"), None);
    assert_eq!(ifn(b"function(a){return {k:{x:a}}}(nope)", b"k:"), None);
}

#[test]
fn nuxt_binding_table_maps_undefined_to_null() {
    let (table, _) = ssg_nuxt::parse_vars(b"(function(a,b){return {k:{x:a}}}(undefined,'u'))").unwrap();
    assert_eq!(table.len(), 2);
    assert_eq!(table.get(b"a"), Some(&b"null".to_vec()));
    assert_eq!(table.get(b"b"), Some(&b"'u'".to_vec()));
}

#[test]
fn later_duplicate_parameter_wins() {
    let (table, _) = ssg_ifn::parse_vars(b"function(a,a){return {k:{x:a}}}(1,2)").unwrap();
    assert_eq!(table.len(), 1);
    assert_eq!(table.get(b"a"), Some(&b"2".to_vec()));
}

#[test]
fn empty_target_object() {
    assert_eq!(ifn(b"function(){return {k:{}}}()", b"k:"), Some(b"{}".to_vec()));
}
