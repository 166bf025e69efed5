use lib::svg::{svg_anchor_attrs, xml_escape};
use lib::text::{owned, str_contains, str_eq};
use lib::timesig::parse_time_sig;

#[test]
fn escapes_markup_characters() {
    assert_eq!(xml_escape("a < b & c > \"d\" 'e'"), "a &lt; b &amp; c &gt; &quot;d&quot; &apos;e&apos;");
    assert_eq!(xml_escape(""), "");
    assert_eq!(xml_escape("plain ♯ text"), "plain ♯ text");
    assert_eq!(xml_escape("&&"), "&amp;&amp;");
}

#[test]
fn escaping_is_compositional() {
    let a = "x<y";
    let b = "'z'&";
    let joined = format!("{}{}", a, b);
    assert_eq!(xml_escape(&joined), format!("{}{}", xml_escape(a), xml_escape(b)));
    let out = xml_escape("<tag attr=\"v\">");
    assert!(!out.contains('<') && !out.contains('>') && !out.contains('"'));
}

#[test]
fn anchor_attributes() {
    assert_eq!(svg_anchor_attrs("north-east"), ("end", "text-before-edge"));
    assert_eq!(svg_anchor_attrs("south-west"), ("start", "text-after-edge"));
    assert_eq!(svg_anchor_attrs("north"), ("middle", "text-before-edge"));
    assert_eq!(svg_anchor_attrs("east"), ("end", "central"));
    assert_eq!(svg_anchor_attrs("center"), ("middle", "central"));
    assert_eq!(svg_anchor_attrs(""), ("middle", "central"));
}

#[test]
fn parses_time_signatures() {
    let t = parse_time_sig(Some("3/4")).unwrap();
    assert_eq!((t.upper, t.lower, t.symbol.clone()), (3, 4, None));
    let t = parse_time_sig(Some(" 6 / 8 ")).unwrap();
    assert_eq!((t.upper, t.lower), (6, 8));
    let t = parse_time_sig(Some("+12/-8")).unwrap();
    assert_eq!((t.upper, t.lower), (12, -8));
    for s in ["C", "c", "common"] {
        let t = parse_time_sig(Some(s)).unwrap();
        assert_eq!((t.upper, t.lower, t.symbol.as_deref()), (4, 4, Some("common")));
    }
    for s in ["C|", "c|", "cut"] {
        let t = parse_time_sig(Some(s)).unwrap();
        assert_eq!((t.upper, t.lower, t.symbol.as_deref()), (2, 2, Some("cut")));
    }
    assert!(parse_time_sig(None).is_none());
    assert!(parse_time_sig(Some("")).is_none());
    assert!(parse_time_sig(Some("4")).is_none());
    assert!(parse_time_sig(Some("4/4/4")).is_none());
    assert!(parse_time_sig(Some("a/4")).is_none());
    assert!(parse_time_sig(Some("4/")).is_none());
    assert!(parse_time_sig(Some("99999999999/4")).is_none());
    assert!(parse_time_sig(Some("Common")).is_none());
    assert!(parse_time_sig(Some("3 /4x")).is_none());
}

#[test]
fn string_helpers() {
    assert!(str_eq("abc", "abc"));
    assert!(!str_eq("abc", "abd"));
    assert!(!str_eq("abc", "ab"));
    assert!(str_contains("north-east", "east"));
    assert!(str_contains("abc", ""));
    assert!(!str_contains("ab", "abc"));
    assert!(!str_contains("south", "north"));
    assert_eq!(owned("clef"), "clef".to_string());
}

#[test]
fn escaped_text_decodes_back() {
    let inputs = [
        "a<b & 'c'",
        "&amp; is already an entity",
        "\"quoted\" <tag> & 'single'",
        "&lt;&&gt;",
        "",
        "plain ♯ text",
    ];
    for input in inputs.iter() {
        let out = xml_escape(input);
        for (i, ch) in out.char_indices() {
            if ch == '&' {
                let rest = &out[i..];
                assert!(
                    rest.starts_with("&amp;")
                        || rest.starts_with("&lt;")
                        || rest.starts_with("&gt;")
                        || rest.starts_with("&quot;")
                        || rest.starts_with("&apos;")
                );
            }
        }
        let decoded = out
            .replace("&lt;", "<")
            .replace("&gt;", ">")
            .replace("&quot;", "\"")
            .replace("&apos;", "'")
            .replace("&amp;", "&");
        assert_eq!(decoded, *input);
    }
    assert_eq!(xml_escape("a<b & 'c'"), "a&lt;b &amp; &apos;c&apos;");
}
