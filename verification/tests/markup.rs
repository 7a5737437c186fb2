use svgm::parser::parse;
use svgm::serializer::serialize;

#[test]
fn written_document_reads_back() {
    let inputs = [
        "<svg xmlns=\"http://www.w3.org/2000/svg\"><g id='a\"b'><rect x=\"1\"/>text<!--c--><![CDATA[x<y]]><?pi data?></g></svg>",
        "<!DOCTYPE svg><svg><xlink:a xlink:href=\"#x\">t</xlink:a></svg>",
        "<svg></svg>",
    ];
    for input in inputs {
        let doc = parse(input).unwrap();
        let once = serialize(&doc);
        let again = parse(&once).unwrap();
        assert_eq!(serialize(&again), once);
    }
}

#[test]
fn single_quoted_values_are_written_with_double_quotes() {
    let doc = parse("<svg a='x\"y'/>").unwrap();
    assert_eq!(serialize(&doc), "<svg a=\"x&quot;y\"/>");
}

#[test]
fn empty_elements_are_self_closed() {
    let doc = parse("<svg><g></g></svg>").unwrap();
    assert_eq!(serialize(&doc), "<svg><g/></svg>");
}

#[test]
fn malformed_markup_is_refused() {
    assert!(parse("<svg>").is_err());
    assert!(parse("<svg></g>").is_err());
    assert!(parse("</svg>").is_err());
    assert!(parse("<svg a=b/>").is_err());
}
