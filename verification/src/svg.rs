//! Text helpers for SVG output: XML escaping and anchor attributes.

use vstd::prelude::*;
use crate::text::{str_contains, has_infix};

verus! {

/// The XML entity for a character that must be escaped, or the character itself.
pub open spec fn escape_char(c: char) -> Seq<char> {
    if c == '&' {
        seq!['&', 'a', 'm', 'p', ';']
    } else if c == '<' {
        seq!['&', 'l', 't', ';']
    } else if c == '>' {
        seq!['&', 'g', 't', ';']
    } else if c == '"' {
        seq!['&', 'q', 'u', 'o', 't', ';']
    } else if c == '\'' {
        seq!['&', 'a', 'p', 'o', 's', ';']
    } else {
        seq![c]
    }
}

/// Every character replaced by its escape, in order.
pub open spec fn spec_xml_escape(s: Seq<char>) -> Seq<char>
    decreases s.len(),
{
    if s.len() == 0 {
        Seq::empty()
    } else {
        spec_xml_escape(s.drop_last()) + escape_char(s.last())
    }
}

fn escape_literal(c: char) -> (r: Option<&'static str>)
    ensures
        r matches Some(e) ==> e@ == escape_char(c),
        r is None ==> escape_char(c) == seq![c],
{
    if c == '&' {
        proof {
            reveal_strlit("&amp;");
        }
        let e = "&amp;";
        assert(e@ =~= escape_char(c));
        Some(e)
    } else if c == '<' {
        proof {
            reveal_strlit("&lt;");
        }
        let e = "&lt;";
        assert(e@ =~= escape_char(c));
        Some(e)
    } else if c == '>' {
        proof {
            reveal_strlit("&gt;");
        }
        let e = "&gt;";
        assert(e@ =~= escape_char(c));
        Some(e)
    } else if c == '"' {
        proof {
            reveal_strlit("&quot;");
        }
        let e = "&quot;";
        assert(e@ =~= escape_char(c));
        Some(e)
    } else if c == '\'' {
        proof {
            reveal_strlit("&apos;");
        }
        let e = "&apos;";
        assert(e@ =~= escape_char(c));
        Some(e)
    } else {
        None
    }
}

/// Escape the five XML special characters of a text value.
pub fn xml_escape(value: &str) -> (r: String)
    ensures
        r@ == spec_xml_escape(value@),
{
    let mut out = String::new();
    let n = value.unicode_len();
    let mut i: usize = 0;
    assert(value@.subrange(0, 0) =~= Seq::<char>::empty());
    while i < n
        invariant
            n == value@.len(),
            i <= n,
            out@ == spec_xml_escape(value@.subrange(0, i as int)),
        decreases n - i,
    {
        let ch = value.get_char(i);
        match escape_literal(ch) {
            Some(e) => out.append(e),
            None => {
                let one = value.substring_char(i, i + 1);
                assert(one@ =~= seq![ch]);
                out.append(one);
            },
        }
        assert(value@.subrange(0, i + 1).drop_last() =~= value@.subrange(0, i as int));
        i += 1;
    }
    assert(value@.subrange(0, n as int) =~= value@);
    out
}

/// SVG `text-anchor` for an anchor name: "end" if it mentions east, else
/// "start" if it mentions west, else "middle".
pub open spec fn spec_text_anchor(anchor: Seq<char>) -> Seq<char> {
    if has_infix(anchor, "east"@) {
        "end"@
    } else if has_infix(anchor, "west"@) {
        "start"@
    } else {
        "middle"@
    }
}

/// SVG `dominant-baseline` for an anchor name: "text-before-edge" if it
/// mentions north, else "text-after-edge" if it mentions south, else "central".
pub open spec fn spec_baseline(anchor: Seq<char>) -> Seq<char> {
    if has_infix(anchor, "north"@) {
        "text-before-edge"@
    } else if has_infix(anchor, "south"@) {
        "text-after-edge"@
    } else {
        "central"@
    }
}

/// SVG text-anchor and baseline attributes for a compass anchor name.
pub fn svg_anchor_attrs(anchor: &str) -> (r: (&'static str, &'static str))
    ensures
        r.0@ == spec_text_anchor(anchor@),
        r.1@ == spec_baseline(anchor@),
{
    let text_anchor = if str_contains(anchor, "east") {
        "end"
    } else if str_contains(anchor, "west") {
        "start"
    } else {
        "middle"
    };
    let baseline = if str_contains(anchor, "north") {
        "text-before-edge"
    } else if str_contains(anchor, "south") {
        "text-after-edge"
    } else {
        "central"
    };
    (text_anchor, baseline)
}

/// Escaping is compositional: the escape of a concatenation is the
/// concatenation of the escapes.
pub proof fn xml_escape_concat(a: Seq<char>, b: Seq<char>)
    ensures
        spec_xml_escape(a + b) == spec_xml_escape(a) + spec_xml_escape(b),
    decreases b.len(),
{
    if b.len() == 0 {
        assert(a + b =~= a);
        assert(spec_xml_escape(b) =~= Seq::<char>::empty());
        assert(spec_xml_escape(a) + spec_xml_escape(b) =~= spec_xml_escape(a));
    } else {
        xml_escape_concat(a, b.drop_last());
        assert((a + b).drop_last() =~= a + b.drop_last());
        assert((a + b).last() == b.last());
        assert(spec_xml_escape(a) + spec_xml_escape(b) =~= spec_xml_escape(a) + spec_xml_escape(
            b.drop_last(),
        ) + escape_char(b.last()));
    }
}

/// Escaped text holds no markup characters: no `<`, `>`, `"` or `'`.
pub proof fn xml_escape_has_no_markup(s: Seq<char>)
    ensures
        forall|i: int|
            0 <= i < spec_xml_escape(s).len() ==> {
                let c = #[trigger] spec_xml_escape(s)[i];
                c != '<' && c != '>' && c != '"' && c != '\''
            },
    decreases s.len(),
{
    if s.len() > 0 {
        xml_escape_has_no_markup(s.drop_last());
        let p = spec_xml_escape(s.drop_last());
        let e = escape_char(s.last());
        assert forall|i: int| 0 <= i < spec_xml_escape(s).len() implies {
            let c = #[trigger] spec_xml_escape(s)[i];
            c != '<' && c != '>' && c != '"' && c != '\''
        } by {
            if i < p.len() {
                assert(spec_xml_escape(s)[i] == p[i]);
            } else {
                assert(spec_xml_escape(s)[i] == e[i - p.len()]);
            }
        }
    }
}

/// The five entities that escaping produces.
pub open spec fn is_entity(e: Seq<char>) -> bool {
    e == escape_char('&') || e == escape_char('<') || e == escape_char('>') || e == escape_char(
        '"',
    ) || e == escape_char('\'')
}

/// Text `t` holds the entity `e` at position `i`.
pub open spec fn entity_at(t: Seq<char>, i: int, e: Seq<char>) -> bool {
    0 <= i && i + e.len() <= t.len() && t.subrange(i, i + e.len()) == e
}

/// Decoding of escaped text, left to right: each entity gives back its
/// character, every other character is copied.
pub open spec fn spec_xml_unescape(t: Seq<char>) -> Seq<char>
    decreases t.len(),
{
    if t.len() == 0 {
        Seq::empty()
    } else if entity_at(t, 0, escape_char('&')) {
        seq!['&'] + spec_xml_unescape(t.skip(5))
    } else if entity_at(t, 0, escape_char('<')) {
        seq!['<'] + spec_xml_unescape(t.skip(4))
    } else if entity_at(t, 0, escape_char('>')) {
        seq!['>'] + spec_xml_unescape(t.skip(4))
    } else if entity_at(t, 0, escape_char('"')) {
        seq!['"'] + spec_xml_unescape(t.skip(6))
    } else if entity_at(t, 0, escape_char('\'')) {
        seq!['\''] + spec_xml_unescape(t.skip(6))
    } else {
        seq![t[0]] + spec_xml_unescape(t.drop_first())
    }
}

proof fn lemma_unescape_step(c: char, rest: Seq<char>)
    ensures
        spec_xml_unescape(escape_char(c) + rest) == seq![c] + spec_xml_unescape(rest),
{
    let e = escape_char(c);
    let t = e + rest;
    assert(t.subrange(0, e.len() as int) =~= e);
    assert(t.skip(e.len() as int) =~= rest);
    if c != '&' && c != '<' && c != '>' && c != '"' && c != '\'' {
        assert(t[0] == c);
        assert(t.drop_first() =~= rest);
        assert(!entity_at(t, 0, escape_char('&')) && !entity_at(t, 0, escape_char('<'))
            && !entity_at(t, 0, escape_char('>')) && !entity_at(t, 0, escape_char('"'))
            && !entity_at(t, 0, escape_char('\''))) by {
            assert(escape_char('&')[0] == '&' && escape_char('<')[0] == '&');
            assert(escape_char('>')[0] == '&' && escape_char('"')[0] == '&');
            assert(escape_char('\'')[0] == '&');
            if entity_at(t, 0, escape_char('&')) {
                assert(t.subrange(0, 5)[0] == t[0]);
            }
            if entity_at(t, 0, escape_char('<')) {
                assert(t.subrange(0, 4)[0] == t[0]);
            }
            if entity_at(t, 0, escape_char('>')) {
                assert(t.subrange(0, 4)[0] == t[0]);
            }
            if entity_at(t, 0, escape_char('"')) {
                assert(t.subrange(0, 6)[0] == t[0]);
            }
            if entity_at(t, 0, escape_char('\'')) {
                assert(t.subrange(0, 6)[0] == t[0]);
            }
        }
    } else if c == '<' {
        assert(!entity_at(t, 0, escape_char('&'))) by {
            if entity_at(t, 0, escape_char('&')) {
                assert(t.subrange(0, 5)[1] == t[1]);
            }
        }
    } else if c == '>' {
        assert(!entity_at(t, 0, escape_char('&'))) by {
            if entity_at(t, 0, escape_char('&')) {
                assert(t.subrange(0, 5)[1] == t[1]);
            }
        }
        assert(!entity_at(t, 0, escape_char('<'))) by {
            if entity_at(t, 0, escape_char('<')) {
                assert(t.subrange(0, 4)[1] == t[1]);
            }
        }
    } else if c == '"' {
        assert(!entity_at(t, 0, escape_char('&'))) by {
            if entity_at(t, 0, escape_char('&')) {
                assert(t.subrange(0, 5)[1] == t[1]);
            }
        }
        assert(!entity_at(t, 0, escape_char('<'))) by {
            if entity_at(t, 0, escape_char('<')) {
                assert(t.subrange(0, 4)[1] == t[1]);
            }
        }
        assert(!entity_at(t, 0, escape_char('>'))) by {
            if entity_at(t, 0, escape_char('>')) {
                assert(t.subrange(0, 4)[1] == t[1]);
            }
        }
    } else if c == '\'' {
        assert(!entity_at(t, 0, escape_char('&'))) by {
            if entity_at(t, 0, escape_char('&')) {
                assert(t.subrange(0, 5)[2] == t[2]);
            }
        }
        assert(!entity_at(t, 0, escape_char('<'))) by {
            if entity_at(t, 0, escape_char('<')) {
                assert(t.subrange(0, 4)[1] == t[1]);
            }
        }
        assert(!entity_at(t, 0, escape_char('>'))) by {
            if entity_at(t, 0, escape_char('>')) {
                assert(t.subrange(0, 4)[1] == t[1]);
            }
        }
        assert(!entity_at(t, 0, escape_char('"'))) by {
            if entity_at(t, 0, escape_char('"')) {
                assert(t.subrange(0, 6)[1] == t[1]);
            }
        }
    }
}

/// Escaping loses nothing: decoding the entities of escaped text (left to
/// right) gives the text back.
pub proof fn xml_escape_decodes_back(s: Seq<char>)
    ensures
        spec_xml_unescape(spec_xml_escape(s)) == s,
    decreases s.len(),
{
    if s.len() > 0 {
        let c = s[0];
        let rest = s.drop_first();
        assert(s =~= seq![c] + rest);
        xml_escape_concat(seq![c], rest);
        assert(seq![c].drop_last() =~= Seq::<char>::empty());
        assert(seq![c].last() == c);
        assert(spec_xml_escape(Seq::<char>::empty()) =~= Seq::<char>::empty());
        assert(spec_xml_escape(seq![c]) =~= escape_char(c));
        lemma_unescape_step(c, spec_xml_escape(rest));
        xml_escape_decodes_back(rest);
    }
}

/// Every `&` of escaped text begins one of the five entities.
pub proof fn xml_escape_ampersands_begin_entities(s: Seq<char>)
    ensures
        forall|i: int|
            0 <= i < spec_xml_escape(s).len() && #[trigger] spec_xml_escape(s)[i] == '&' ==> exists|e: Seq<char>|
                is_entity(e) && #[trigger] entity_at(spec_xml_escape(s), i, e),
    decreases s.len(),
{
    if s.len() > 0 {
        xml_escape_ampersands_begin_entities(s.drop_last());
        let p = spec_xml_escape(s.drop_last());
        let e = escape_char(s.last());
        let t = spec_xml_escape(s);
        assert(t == p + e);
        assert forall|i: int| 0 <= i < t.len() && #[trigger] t[i] == '&' implies exists|x: Seq<char>|
            is_entity(x) && #[trigger] entity_at(t, i, x) by {
            if i < p.len() {
                assert(t[i] == p[i]);
                let x = choose|x: Seq<char>| is_entity(x) && #[trigger] entity_at(p, i, x);
                assert(t.subrange(i, i + x.len()) =~= p.subrange(i, i + x.len()));
                assert(entity_at(t, i, x));
            } else {
                let k = i - p.len();
                assert(t[i] == e[k]);
                assert(k == 0);
                assert(s.last() == '&' || s.last() == '<' || s.last() == '>' || s.last() == '"'
                    || s.last() == '\'');
                assert(t.subrange(i, i + e.len()) =~= e);
                assert(is_entity(e));
                assert(entity_at(t, i, e));
            }
        }
    }
}

} // verus!
