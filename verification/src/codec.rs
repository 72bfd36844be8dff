//! The interchange codec: a canonical textual encoding of the tree and a
//! decoder for the interchange shape.
//!
//! The canonical interchange form of a note is `{"type":"note","text":"..."}`
//! and the form of a progression is `{"type":"progression","children":[...]}`
//! with its children's interchange forms comma-separated between the
//! brackets. Text is escaped as in common structured-object notation: quote
//! and backslash get a backslash, the usual control-character short escapes
//! are used, and any other control character becomes a four-digit hexadecimal
//! escape.
//!
//! The decoder accepts any spelling of that shape: the two members of an
//! object in either order, insignificant whitespace between tokens, and the
//! standard string escapes, including four-digit hexadecimal escapes and
//! surrogate pairs for code points beyond the basic plane. Keys and variant
//! tags are recognized in their plain spelling, and an object holds exactly
//! its two members.

use vstd::prelude::*;
use vstd::string::StrSliceExecFns;
use crate::ast::{AstNode, AstView, lemma_views_of, view_of, views_of};

verus! {

/// Relies on `String::push` of std: appends the given character to the end
/// of the string.
pub assume_specification[ String::push ](s: &mut String, ch: char)
    ensures
        final (s)@ == old(s)@.push(ch),
;

/// Relies on `char::from_u32` of std: it returns the character with the
/// given code point, and `None` exactly on values that are no Unicode scalar
/// value, that is surrogates and values above the highest code point.
pub assume_specification[ char::from_u32 ](i: u32) -> (r: Option<char>)
    ensures
        r is Some <==> (i < 0xD800 || (0xE000 <= i && i <= 0x10FFFF)),
        r matches Some(c) ==> c as u32 == i,
;

// ---------------------------------------------------------------------
// The encoding, as a mathematical function of the tree.
// ---------------------------------------------------------------------
/// The opening of a note object, up to and including the quote that starts
/// its text.
pub open spec fn note_prefix() -> Seq<char> {
    "{\"type\":\"note\",\"text\":\""@
}

/// The opening of a progression object, up to and including the bracket that
/// starts its child list.
pub open spec fn prog_prefix() -> Seq<char> {
    "{\"type\":\"progression\",\"children\":["@
}

/// The hexadecimal digit for a value below sixteen, in lower case.
pub open spec fn spec_hex_digit(n: u32) -> char {
    if n < 10 {
        ((48 + n) as u8) as char
    } else {
        ((87 + n) as u8) as char
    }
}

/// The escape of one text character: quote and backslash are
/// backslash-escaped, the five control characters with short escapes use
/// them, every other control character becomes `\u00` and two hexadecimal
/// digits, and all remaining characters stand for themselves.
pub open spec fn spec_escape_char(c: char) -> Seq<char> {
    if c == '"' {
        seq!['\\', '"']
    } else if c == '\\' {
        seq!['\\', '\\']
    } else if c == '\u{8}' {
        seq!['\\', 'b']
    } else if c == '\u{c}' {
        seq!['\\', 'f']
    } else if c == '\n' {
        seq!['\\', 'n']
    } else if c == '\r' {
        seq!['\\', 'r']
    } else if c == '\t' {
        seq!['\\', 't']
    } else if (c as u32) < 0x20 {
        seq!['\\', 'u', '0', '0', spec_hex_digit((c as u32) / 16), spec_hex_digit((c as u32) % 16)]
    } else {
        seq![c]
    }
}

/// The escape of a whole text, character by character.
pub open spec fn spec_escape(t: Seq<char>) -> Seq<char>
    decreases t.len(),
{
    if t.len() <= 0 {
        Seq::empty()
    } else {
        spec_escape_char(t[0]) + spec_escape(t.subrange(1, t.len() as int))
    }
}

/// The canonical interchange text of a tree.
pub open spec fn spec_encode(a: AstView) -> Seq<char>
    decreases a,
    0int,
{
    match a {
        AstView::Note { text } => note_prefix() + spec_escape(text) + "\"}"@,
        AstView::Progression { children } => prog_prefix() + spec_encode_list(children) + "]}"@,
    }
}

/// The canonical interchange text of a child list: the children's texts,
/// comma-separated.
pub open spec fn spec_encode_list(cs: Seq<AstView>) -> Seq<char>
    decreases cs,
    1int,
{
    if cs.len() <= 0 {
        Seq::empty()
    } else if cs.len() == 1 {
        spec_encode(cs[0])
    } else {
        spec_encode(cs[0]) + seq![','] + spec_encode_list(cs.subrange(1, cs.len() as int))
    }
}

// ---------------------------------------------------------------------
// The encoder.
// ---------------------------------------------------------------------
/// The hexadecimal digit for a value below sixteen.
fn hex_digit(n: u32) -> (c: char)
    requires
        n < 16,
    ensures
        c == spec_hex_digit(n),
{
    if n < 10 {
        (48 + n as u8) as char
    } else {
        (87 + n as u8) as char
    }
}

/// Append the escape of one character.
fn escape_char_into(c: char, out: &mut String)
    ensures
        final (out)@ == old(out)@ + spec_escape_char(c),
{
    match c {
        '"' => {
            out.append("\\\"");
            proof {
                reveal_strlit("\\\"");
                assert(old(out)@ + "\\\""@ =~= old(out)@ + spec_escape_char(c));
            }
        },
        '\\' => {
            out.append("\\\\");
            proof {
                reveal_strlit("\\\\");
                assert(old(out)@ + "\\\\"@ =~= old(out)@ + spec_escape_char(c));
            }
        },
        '\u{8}' => {
            out.append("\\b");
            proof {
                reveal_strlit("\\b");
                assert(old(out)@ + "\\b"@ =~= old(out)@ + spec_escape_char(c));
            }
        },
        '\u{c}' => {
            out.append("\\f");
            proof {
                reveal_strlit("\\f");
                assert(old(out)@ + "\\f"@ =~= old(out)@ + spec_escape_char(c));
            }
        },
        '\n' => {
            out.append("\\n");
            proof {
                reveal_strlit("\\n");
                assert(old(out)@ + "\\n"@ =~= old(out)@ + spec_escape_char(c));
            }
        },
        '\r' => {
            out.append("\\r");
            proof {
                reveal_strlit("\\r");
                assert(old(out)@ + "\\r"@ =~= old(out)@ + spec_escape_char(c));
            }
        },
        '\t' => {
            out.append("\\t");
            proof {
                reveal_strlit("\\t");
                assert(old(out)@ + "\\t"@ =~= old(out)@ + spec_escape_char(c));
            }
        },
        _ => {
            let u = c as u32;
            if u < 0x20 {
                out.append("\\u00");
                out.push(hex_digit(u / 16));
                out.push(hex_digit(u % 16));
                proof {
                    reveal_strlit("\\u00");
                    assert(final (out)@ =~= old(out)@ + spec_escape_char(c));
                }
            } else {
                out.push(c);
                proof {
                    assert(final (out)@ =~= old(out)@ + spec_escape_char(c));
                }
            }
        },
    }
}

/// Append the escape of a whole text.
pub(crate) fn escape_into(t: &str, out: &mut String)
    ensures
        final (out)@ == old(out)@ + spec_escape(t@),
{
    let n = t.unicode_len();
    proof {
        assert(t@.subrange(0, n as int) =~= t@);
    }
    let mut i: usize = 0;
    while i < n
        invariant
            n == t@.len(),
            i <= n,
            out@ + spec_escape(t@.subrange(i as int, n as int)) == old(out)@ + spec_escape(t@),
        decreases n - i,
    {
        let c = t.get_char(i);
        proof {
            let rest = t@.subrange(i as int, n as int);
            assert(rest[0] == t@[i as int]);
            assert(rest.subrange(1, rest.len() as int) =~= t@.subrange(i + 1, n as int));
            assert(out@ + spec_escape_char(c) + spec_escape(t@.subrange(i + 1, n as int)) =~= out@
                + spec_escape(rest));
        }
        escape_char_into(c, out);
        i += 1;
    }
    proof {
        assert(spec_escape(t@.subrange(n as int, n as int)) =~= Seq::<char>::empty());
        assert(out@ =~= out@ + spec_escape(t@.subrange(n as int, n as int)));
        assert(out@ =~= old(out)@ + spec_escape(t@));
    }
}

/// Append the canonical interchange text of a tree.
fn encode_into(a: &AstNode, out: &mut String)
    ensures
        final (out)@ == old(out)@ + spec_encode(a@),
    decreases a,
{
    match a {
        AstNode::Note { text } => {
            out.append("{\"type\":\"note\",\"text\":\"");
            escape_into(text.as_str(), out);
            out.append("\"}");
            proof {
                assert(final (out)@ =~= old(out)@ + spec_encode(a@));
            }
        },
        AstNode::Progression { children } => {
            proof {
                lemma_views_of(children@);
            }
            let ghost cv = views_of(children@);
            let ghost base = out@ + prog_prefix();
            out.append("{\"type\":\"progression\",\"children\":[");
            let n = children.len();
            proof {
                assert(cv.subrange(0, n as int) =~= cv);
            }
            let mut i: usize = 0;
            while i < n
                invariant
                    n == children@.len(),
                    i <= n,
                    a is Progression,
                    a->Progression_children == *children,
                    cv == views_of(children@),
                    cv.len() == n,
                    forall|j: int| 0 <= j < n ==> cv[j] == #[trigger] children@[j]@,
                    base == old(out)@ + prog_prefix(),
                    out@ + spec_encode_list(cv.subrange(i as int, n as int)) == base
                        + spec_encode_list(cv),
                decreases n - i,
            {
                proof {
                    assert(decreases_to!(*a => a->Progression_children));
                    assert(decreases_to!(*children => children@));
                    assert(decreases_to!(children@ => children@[i as int]));
                }
                let ghost pre = out@;
                let ghost rest = cv.subrange(i as int, n as int);
                encode_into(&children[i], out);
                if i + 1 < n {
                    out.push(',');
                    proof {
                        assert(rest[0] == cv[i as int]);
                        assert(rest.subrange(1, rest.len() as int) =~= cv.subrange(
                            i + 1,
                            n as int,
                        ));
                        assert(out@ =~= pre + spec_encode(cv[i as int]) + seq![',']);
                        assert(pre + spec_encode_list(rest) =~= out@ + spec_encode_list(
                            cv.subrange(i + 1, n as int),
                        ));
                    }
                } else {
                    proof {
                        assert(rest.len() == 1);
                        assert(rest[0] == cv[i as int]);
                        assert(spec_encode_list(rest) == spec_encode(cv[i as int]));
                        assert(cv.subrange(i + 1, n as int).len() == 0);
                        assert(spec_encode_list(cv.subrange(i + 1, n as int))
                            =~= Seq::<char>::empty());
                        assert(pre + spec_encode_list(rest) =~= out@ + spec_encode_list(
                            cv.subrange(i + 1, n as int),
                        ));
                    }
                }
                i += 1;
            }
            out.append("]}");
            proof {
                assert(spec_encode_list(cv.subrange(n as int, n as int)) =~= Seq::<char>::empty());
                assert(final (out)@ =~= old(out)@ + spec_encode(a@));
            }
        },
    }
}

// ---------------------------------------------------------------------
// The decoding, as a mathematical function of the text.
// ---------------------------------------------------------------------
/// Whether the given literal stands in `s` at position `pos`.
pub open spec fn lit_at(s: Seq<char>, pos: int, lit: Seq<char>) -> bool {
    &&& 0 <= pos
    &&& pos + lit.len() <= s.len()
    &&& s.subrange(pos, pos + lit.len()) == lit
}

/// Whether the single character `c` stands in `s` at position `pos`.
pub open spec fn char_at(s: Seq<char>, pos: int, c: char) -> bool {
    0 <= pos < s.len() && s[pos] == c
}

/// The numeric value of a hexadecimal digit, upper or lower case.
pub open spec fn spec_hex_val(c: char) -> Option<u32> {
    let u = c as u32;
    if 48 <= u <= 57 {
        Some((u - 48) as u32)
    } else if 97 <= u <= 102 {
        Some((u - 87) as u32)
    } else if 65 <= u <= 70 {
        Some((u - 55) as u32)
    } else {
        None
    }
}

/// The character a short escape stands for: the second character of the
/// escape maps to the escaped character, or to nothing if it is not a short
/// escape.
pub open spec fn spec_escape_shift(e: char) -> Option<char> {
    if e == '"' {
        Some('"')
    } else if e == '\\' {
        Some('\\')
    } else if e == '/' {
        Some('/')
    } else if e == 'b' {
        Some('\u{8}')
    } else if e == 'f' {
        Some('\u{c}')
    } else if e == 'n' {
        Some('\n')
    } else if e == 'r' {
        Some('\r')
    } else if e == 't' {
        Some('\t')
    } else {
        None
    }
}

/// Parse the body of a quoted string starting at `pos`, up to and including
/// its closing quote: the result is the unescaped text and the position just
/// past the quote. Raw control characters, unknown escapes, surrogate code
/// points and an unterminated string all fail.
pub open spec fn spec_parse_string(s: Seq<char>, pos: int) -> Option<(Seq<char>, int)>
    decreases s.len() - pos,
{
    if pos < 0 || pos >= s.len() {
        None
    } else {
        let c = s[pos];
        if c == '"' {
            Some((Seq::empty(), pos + 1))
        } else if c == '\\' {
            if pos + 1 >= s.len() {
                None
            } else {
                let e = s[pos + 1];
                if e == 'u' {
                    if pos + 5 >= s.len() {
                        None
                    } else {
                        match (spec_hex_val(s[pos + 2]), spec_hex_val(s[pos + 3]), spec_hex_val(
                            s[pos + 4],
                        ), spec_hex_val(s[pos + 5])) {
                            (Some(h3), Some(h2), Some(h1), Some(h0)) => {
                                let u = h3 * 4096 + h2 * 256 + h1 * 16 + h0;
                                if 0xD800 <= u < 0xDC00 {
                                    // a high surrogate: only valid as the
                                    // first half of a surrogate pair
                                    if pos + 11 >= s.len() || s[pos + 6] != '\\' || s[pos + 7]
                                        != 'u' {
                                        None
                                    } else {
                                        match (spec_hex_val(s[pos + 8]), spec_hex_val(s[pos + 9]),
                                        spec_hex_val(s[pos + 10]), spec_hex_val(s[pos + 11])) {
                                            (Some(g3), Some(g2), Some(g1), Some(g0)) => {
                                                let w = g3 * 4096 + g2 * 256 + g1 * 16 + g0;
                                                if 0xDC00 <= w < 0xE000 {
                                                    let cp = 0x10000 + (u - 0xD800) * 0x400 + (w
                                                        - 0xDC00);
                                                    match spec_parse_string(s, pos + 12) {
                                                        Some((t, q)) => Some(
                                                            (seq![(cp as u32) as char] + t, q),
                                                        ),
                                                        None => None,
                                                    }
                                                } else {
                                                    None
                                                }
                                            },
                                            _ => None,
                                        }
                                    }
                                } else if 0xDC00 <= u < 0xE000 {
                                    // a lone low surrogate
                                    None
                                } else {
                                    match spec_parse_string(s, pos + 6) {
                                        Some((t, q)) => Some((seq![(u as u32) as char] + t, q)),
                                        None => None,
                                    }
                                }
                            },
                            _ => None,
                        }
                    }
                } else {
                    match spec_escape_shift(e) {
                        Some(d) => match spec_parse_string(s, pos + 2) {
                            Some((t, q)) => Some((seq![d] + t, q)),
                            None => None,
                        },
                        None => None,
                    }
                }
            }
        } else if (c as u32) < 0x20 {
            None
        } else {
            match spec_parse_string(s, pos + 1) {
                Some((t, q)) => Some((seq![c] + t, q)),
                None => None,
            }
        }
    }
}

/// Whether a character is insignificant whitespace between tokens.
pub open spec fn is_ws(c: char) -> bool {
    c == ' ' || c == '\t' || c == '\n' || c == '\r'
}

/// The first position at or after `pos` that does not hold whitespace, or
/// the end of the text.
pub open spec fn skip_ws(s: Seq<char>, pos: int) -> int
    decreases s.len() - pos,
{
    if 0 <= pos < s.len() && is_ws(s[pos]) {
        skip_ws(s, pos + 1)
    } else {
        pos
    }
}

/// Skipping whitespace never goes backwards and never leaves the text.
proof fn lemma_skip_ws(s: Seq<char>, pos: int)
    requires
        0 <= pos,
    ensures
        pos <= skip_ws(s, pos),
        pos <= s.len() ==> skip_ws(s, pos) <= s.len(),
    decreases s.len() - pos,
{
    if 0 <= pos < s.len() && is_ws(s[pos]) {
        lemma_skip_ws(s, pos + 1);
    }
}

proof fn lemma_skip_ws_all(s: Seq<char>)
    ensures
        forall|p: int|
            0 <= p ==> p <= #[trigger] skip_ws(s, p) && (p <= s.len() ==> skip_ws(s, p)
                <= s.len()),
{
    assert forall|p: int|
        0 <= p implies p <= #[trigger] skip_ws(s, p) && (p <= s.len() ==> skip_ws(s, p)
        <= s.len()) by {
        lemma_skip_ws(s, p);
    }
}

/// The `type` key as a quoted token.
pub open spec fn q_type() -> Seq<char> {
    "\"type\""@
}

/// The `text` key as a quoted token.
pub open spec fn q_text() -> Seq<char> {
    "\"text\""@
}

/// The `children` key as a quoted token.
pub open spec fn q_children() -> Seq<char> {
    "\"children\""@
}

/// The `note` tag as a quoted token.
pub open spec fn q_note() -> Seq<char> {
    "\"note\""@
}

/// The `progression` tag as a quoted token.
pub open spec fn q_prog() -> Seq<char> {
    "\"progression\""@
}

/// After a key: optional whitespace, a colon, optional whitespace; the
/// position of the value that follows.
pub open spec fn expect_colon(s: Seq<char>, pos: int) -> Option<int> {
    let p = skip_ws(s, pos);
    if char_at(s, p, ':') {
        Some(skip_ws(s, p + 1))
    } else {
        None
    }
}

/// Between two members: optional whitespace, a comma, optional whitespace;
/// the position of the key that follows.
pub open spec fn expect_comma(s: Seq<char>, pos: int) -> Option<int> {
    let p = skip_ws(s, pos);
    if char_at(s, p, ',') {
        Some(skip_ws(s, p + 1))
    } else {
        None
    }
}

/// After the last member: optional whitespace and the closing brace; the
/// position just past it.
pub open spec fn expect_close(s: Seq<char>, pos: int) -> Option<int> {
    let p = skip_ws(s, pos);
    if char_at(s, p, '}') {
        Some(p + 1)
    } else {
        None
    }
}

/// Parse one interchange value at `pos`: an object with a `type` tag of
/// `note` or `progression` and its required field (`text`, a string, or
/// `children`, a bracketed list), the two members in either order, with
/// insignificant whitespace anywhere between tokens. The result is the tree
/// and the position just past the closing brace.
pub open spec fn spec_parse_value(s: Seq<char>, pos: int) -> Option<(AstView, int)>
    decreases s.len() - pos, 2int,
        via spec_parse_value_dec
{
    if pos < 0 {
        None
    } else {
        let p0 = skip_ws(s, pos);
        if !char_at(s, p0, '{') {
            None
        } else {
            let p1 = skip_ws(s, p0 + 1);
            if lit_at(s, p1, q_type()) {
                match expect_colon(s, p1 + q_type().len()) {
                    Some(pv) => if lit_at(s, pv, q_note()) {
                        match expect_comma(s, pv + q_note().len()) {
                            Some(pk) => if lit_at(s, pk, q_text()) {
                                match expect_colon(s, pk + q_text().len()) {
                                    Some(ps) => if char_at(s, ps, '"') {
                                        match spec_parse_string(s, ps + 1) {
                                            Some((t, pe)) => match expect_close(s, pe) {
                                                Some(end) => Some(
                                                    (AstView::Note { text: t }, end),
                                                ),
                                                None => None,
                                            },
                                            None => None,
                                        }
                                    } else {
                                        None
                                    },
                                    None => None,
                                }
                            } else {
                                None
                            },
                            None => None,
                        }
                    } else if lit_at(s, pv, q_prog()) {
                        match expect_comma(s, pv + q_prog().len()) {
                            Some(pk) => if lit_at(s, pk, q_children()) {
                                match expect_colon(s, pk + q_children().len()) {
                                    Some(pa) => if char_at(s, pa, '[') && pos < pa {
                                        match spec_parse_list(s, pa + 1) {
                                            Some((cs, pe)) => match expect_close(s, pe) {
                                                Some(end) => Some(
                                                    (AstView::Progression { children: cs }, end),
                                                ),
                                                None => None,
                                            },
                                            None => None,
                                        }
                                    } else {
                                        None
                                    },
                                    None => None,
                                }
                            } else {
                                None
                            },
                            None => None,
                        }
                    } else {
                        None
                    },
                    None => None,
                }
            } else if lit_at(s, p1, q_text()) {
                match expect_colon(s, p1 + q_text().len()) {
                    Some(ps) => if char_at(s, ps, '"') {
                        match spec_parse_string(s, ps + 1) {
                            Some((t, pe)) => match expect_comma(s, pe) {
                                Some(pk) => if lit_at(s, pk, q_type()) {
                                    match expect_colon(s, pk + q_type().len()) {
                                        Some(pv) => if lit_at(s, pv, q_note()) {
                                            match expect_close(s, pv + q_note().len()) {
                                                Some(end) => Some(
                                                    (AstView::Note { text: t }, end),
                                                ),
                                                None => None,
                                            }
                                        } else {
                                            None
                                        },
                                        None => None,
                                    }
                                } else {
                                    None
                                },
                                None => None,
                            },
                            None => None,
                        }
                    } else {
                        None
                    },
                    None => None,
                }
            } else if lit_at(s, p1, q_children()) {
                match expect_colon(s, p1 + q_children().len()) {
                    Some(pa) => if char_at(s, pa, '[') && pos < pa {
                        match spec_parse_list(s, pa + 1) {
                            Some((cs, pe)) => match expect_comma(s, pe) {
                                Some(pk) => if lit_at(s, pk, q_type()) {
                                    match expect_colon(s, pk + q_type().len()) {
                                        Some(pv) => if lit_at(s, pv, q_prog()) {
                                            match expect_close(s, pv + q_prog().len()) {
                                                Some(end) => Some(
                                                    (AstView::Progression { children: cs }, end),
                                                ),
                                                None => None,
                                            }
                                        } else {
                                            None
                                        },
                                        None => None,
                                    }
                                } else {
                                    None
                                },
                                None => None,
                            },
                            None => None,
                        }
                    } else {
                        None
                    },
                    None => None,
                }
            } else {
                None
            }
        }
    }
}

#[via_fn]
proof fn spec_parse_value_dec(s: Seq<char>, pos: int) {
    lemma_skip_ws_all(s);
}

/// Parse a child list at `pos`, up to and including its closing bracket:
/// either the bracket at once, or a first value followed by the list's rest,
/// with insignificant whitespace between tokens.
pub open spec fn spec_parse_list(s: Seq<char>, pos: int) -> Option<(Seq<AstView>, int)>
    decreases s.len() - pos, 3int,
        via spec_parse_list_dec
{
    if pos < 0 {
        None
    } else {
        let p = skip_ws(s, pos);
        if char_at(s, p, ']') {
            Some((Seq::empty(), p + 1))
        } else {
            match spec_parse_value(s, p) {
                Some((a, q)) => if p < q <= s.len() {
                    match spec_parse_rest(s, q) {
                        Some((cs, e)) => Some((seq![a] + cs, e)),
                        None => None,
                    }
                } else {
                    None
                },
                None => None,
            }
        }
    }
}

#[via_fn]
proof fn spec_parse_list_dec(s: Seq<char>, pos: int) {
    lemma_skip_ws_all(s);
}

/// Parse the rest of a child list at `pos`: the closing bracket, or a comma
/// and a further value and rest, with insignificant whitespace between
/// tokens.
pub open spec fn spec_parse_rest(s: Seq<char>, pos: int) -> Option<(Seq<AstView>, int)>
    decreases s.len() - pos, 3int,
        via spec_parse_rest_dec
{
    if pos < 0 {
        None
    } else {
        let p = skip_ws(s, pos);
        if char_at(s, p, ']') {
            Some((Seq::empty(), p + 1))
        } else if char_at(s, p, ',') {
            match spec_parse_value(s, p + 1) {
                Some((a, q)) => if p + 1 < q <= s.len() {
                    match spec_parse_rest(s, q) {
                        Some((cs, e)) => Some((seq![a] + cs, e)),
                        None => None,
                    }
                } else {
                    None
                },
                None => None,
            }
        } else {
            None
        }
    }
}

#[via_fn]
proof fn spec_parse_rest_dec(s: Seq<char>, pos: int) {
    lemma_skip_ws_all(s);
}

// ---------------------------------------------------------------------
// The round trip: decoding an encoding yields the tree back.
// ---------------------------------------------------------------------
/// The text that closes a child list after its first element: either the
/// bracket at once, or a comma, the next child and the closing of the rest.
spec fn spec_encode_rest(cs: Seq<AstView>) -> Seq<char>
    decreases cs,
{
    if cs.len() <= 0 {
        seq![']']
    } else {
        seq![','] + spec_encode(cs[0]) + spec_encode_rest(cs.subrange(1, cs.len() as int))
    }
}

/// A run of text at a position splits into its two parts.
proof fn lemma_sub_decompose(s: Seq<char>, pos: int, x: Seq<char>, y: Seq<char>)
    requires
        0 <= pos,
        pos + x.len() + y.len() <= s.len(),
        s.subrange(pos, pos + x.len() + y.len()) == x + y,
    ensures
        s.subrange(pos, pos + x.len()) == x,
        s.subrange(pos + x.len(), pos + x.len() + y.len()) == y,
{
    assert forall|k: int| 0 <= k < x.len() implies s.subrange(pos, pos + x.len())[k] == x[k] by {
        assert((x + y)[k] == x[k]);
        assert(s.subrange(pos, pos + x.len() + y.len())[k] == s[pos + k]);
    }
    assert(s.subrange(pos, pos + x.len()) =~= x);
    assert forall|k: int| 0 <= k < y.len() implies s.subrange(
        pos + x.len(),
        pos + x.len() + y.len(),
    )[k] == y[k] by {
        assert((x + y)[x.len() + k] == y[k]);
        assert(s.subrange(pos, pos + x.len() + y.len())[x.len() + k] == s[pos + x.len() + k]);
    }
    assert(s.subrange(pos + x.len(), pos + x.len() + y.len()) =~= y);
}

/// Every encoding is nonempty and opens with a brace.
proof fn lemma_encode_first_char(a: AstView)
    ensures
        spec_encode(a).len() > 0,
        spec_encode(a)[0] == '{',
{
    reveal_strlit("{\"type\":\"note\",\"text\":\"");
    reveal_strlit("{\"type\":\"progression\",\"children\":[");
}

/// A child list's text followed by its closing bracket is the first child's
/// text followed by the closing of the rest.
proof fn lemma_encode_list_rest(cs: Seq<AstView>)
    ensures
        cs.len() == 0 ==> spec_encode_list(cs) + seq![']'] == spec_encode_rest(cs),
        cs.len() > 0 ==> spec_encode_list(cs) + seq![']'] == spec_encode(cs[0])
            + spec_encode_rest(cs.subrange(1, cs.len() as int)),
    decreases cs.len(),
{
    if cs.len() == 0 {
        assert(spec_encode_list(cs) + seq![']'] =~= seq![']']);
    } else if cs.len() == 1 {
        assert(cs.subrange(1, cs.len() as int).len() == 0);
        assert(spec_encode_rest(cs.subrange(1, cs.len() as int)) == seq![']']);
        assert(spec_encode_list(cs) + seq![']'] =~= spec_encode(cs[0]) + spec_encode_rest(
            cs.subrange(1, cs.len() as int),
        ));
    } else {
        let tail = cs.subrange(1, cs.len() as int);
        lemma_encode_list_rest(tail);
        assert(tail[0] == cs[1]);
        assert(tail.subrange(1, tail.len() as int) =~= cs.subrange(2, cs.len() as int));
        assert(spec_encode_rest(tail) == seq![','] + spec_encode(cs[1]) + spec_encode_rest(
            cs.subrange(2, cs.len() as int),
        ));
        assert(spec_encode_list(cs) + seq![']'] =~= spec_encode(cs[0]) + seq![','] + (
        spec_encode_list(tail) + seq![']']));
        assert(spec_encode(cs[0]) + seq![','] + (spec_encode(tail[0]) + spec_encode_rest(
            tail.subrange(1, tail.len() as int),
        )) =~= spec_encode(cs[0]) + spec_encode_rest(tail));
    }
}

/// Parsing an escaped text followed by its closing quote yields the text
/// back, ending just past the quote.
proof fn lemma_parse_escaped_string(t: Seq<char>, s: Seq<char>, pos: int)
    requires
        0 <= pos,
        pos + spec_escape(t).len() + 1 <= s.len(),
        s.subrange(pos, pos + spec_escape(t).len()) == spec_escape(t),
        s[pos + spec_escape(t).len()] == '"',
    ensures
        spec_parse_string(s, pos) == Some((t, pos + spec_escape(t).len() + 1)),
    decreases t.len(),
{
    if t.len() == 0 {
        assert(spec_escape(t).len() == 0);
        assert(s[pos] == '"');
    } else {
        let c = t[0];
        let e = spec_escape_char(c);
        let t2 = t.subrange(1, t.len() as int);
        let rest = spec_escape(t2);
        assert(spec_escape(t) == e + rest);
        lemma_sub_decompose(s, pos, e, rest);
        let pos2 = pos + e.len();
        assert(s.subrange(pos, pos + e.len()) == e);
        assert forall|k: int| 0 <= k < e.len() implies s[pos + k] == e[k] by {
            assert(s.subrange(pos, pos + e.len())[k] == s[pos + k]);
        }
        lemma_parse_escaped_string(t2, s, pos2);
        assert(seq![c] + t2 =~= t);
        if c == '"' || c == '\\' || c == '\u{8}' || c == '\u{c}' || c == '\n' || c == '\r' || c
            == '\t' {
            assert(s[pos] == '\\');
            assert(spec_escape_shift(e[1]) == Some(c));
            assert(spec_parse_string(s, pos) == Some((seq![c] + t2, pos2 + rest.len() + 1)));
        } else if (c as u32) < 0x20 {
            let u = c as u32;
            assert(s[pos] == '\\' && s[pos + 1] == 'u');
            assert(s[pos + 2] == '0' && s[pos + 3] == '0');
            assert(s[pos + 4] == spec_hex_digit(u / 16) && s[pos + 5] == spec_hex_digit(u % 16));
            assert(spec_hex_val('0') == Some(0u32));
            assert(spec_hex_val(spec_hex_digit(u / 16)) == Some((u / 16) as u32));
            assert(spec_hex_val(spec_hex_digit(u % 16)) == Some((u % 16) as u32));
            let v = (u / 16) * 16 + (u % 16);
            assert(v == u);
            vstd::utf8::char_u32_cast(c, u);
            assert((u as u32) as char == c);
            assert(spec_parse_string(s, pos) == Some((seq![c] + t2, pos2 + rest.len() + 1)));
        } else {
            assert(e == seq![c]);
            assert(s[pos] == c);
            assert(c != '"' && c != '\\');
            assert(spec_parse_string(s, pos) == Some((seq![c] + t2, pos2 + rest.len() + 1)));
        }
    }
}

/// The quoted tokens: their lengths and the characters the proofs compare.
proof fn lemma_token_shapes()
    ensures
        q_type().len() == 6 && q_type()[0] == '"',
        q_note().len() == 6 && q_note()[0] == '"' && q_note()[1] == 'n',
        q_text().len() == 6 && q_text()[0] == '"',
        q_children().len() == 10 && q_children()[0] == '"',
        q_prog().len() == 13 && q_prog()[0] == '"' && q_prog()[1] == 'p',
{
    reveal_strlit("\"type\"");
    reveal_strlit("\"note\"");
    reveal_strlit("\"text\"");
    reveal_strlit("\"children\"");
    reveal_strlit("\"progression\"");
}

/// The canonical note opening, token by token.
proof fn lemma_note_prefix_shape()
    ensures
        note_prefix().len() == 23,
        note_prefix()[0] == '{',
        note_prefix().subrange(1, 7) == q_type(),
        note_prefix()[7] == ':',
        note_prefix().subrange(8, 14) == q_note(),
        note_prefix()[14] == ',',
        note_prefix().subrange(15, 21) == q_text(),
        note_prefix()[21] == ':',
        note_prefix()[22] == '"',
{
    reveal_strlit("{\"type\":\"note\",\"text\":\"");
    reveal_strlit("\"type\"");
    reveal_strlit("\"note\"");
    reveal_strlit("\"text\"");
    assert(note_prefix().subrange(1, 7) =~= q_type());
    assert(note_prefix().subrange(8, 14) =~= q_note());
    assert(note_prefix().subrange(15, 21) =~= q_text());
}

/// The canonical progression opening, token by token.
proof fn lemma_prog_prefix_shape()
    ensures
        prog_prefix().len() == 34,
        prog_prefix()[0] == '{',
        prog_prefix().subrange(1, 7) == q_type(),
        prog_prefix()[7] == ':',
        prog_prefix().subrange(8, 21) == q_prog(),
        prog_prefix()[21] == ',',
        prog_prefix().subrange(22, 32) == q_children(),
        prog_prefix()[32] == ':',
        prog_prefix()[33] == '[',
{
    reveal_strlit("{\"type\":\"progression\",\"children\":[");
    reveal_strlit("\"type\"");
    reveal_strlit("\"progression\"");
    reveal_strlit("\"children\"");
    assert(prog_prefix().subrange(1, 7) =~= q_type());
    assert(prog_prefix().subrange(8, 21) =~= q_prog());
    assert(prog_prefix().subrange(22, 32) =~= q_children());
}

/// A token inside a known run of text also stands in the enclosing text.
proof fn lemma_lit_within(s: Seq<char>, pos: int, whole: Seq<char>, off: int, tok: Seq<char>)
    requires
        0 <= pos,
        pos + whole.len() <= s.len(),
        forall|k: int| 0 <= k < whole.len() ==> s[pos + k] == #[trigger] whole[k],
        0 <= off,
        off + tok.len() <= whole.len(),
        whole.subrange(off, off + tok.len()) == tok,
    ensures
        lit_at(s, pos + off, tok),
{
    assert forall|k: int|
        0 <= k < tok.len() implies s.subrange(pos + off, pos + off + tok.len())[k] == tok[k] by {
        assert(s.subrange(pos + off, pos + off + tok.len())[k] == s[pos + off + k]);
        assert(whole.subrange(off, off + tok.len())[k] == whole[off + k]);
        assert(s[pos + (off + k)] == whole[off + k]);
    }
    assert(s.subrange(pos + off, pos + off + tok.len()) =~= tok);
}

/// Parsing the encoding of a tree yields the tree back, ending just past the
/// encoding.
pub proof fn lemma_parse_encoded_value(a: AstView, s: Seq<char>, pos: int)
    requires
        0 <= pos,
        pos + spec_encode(a).len() <= s.len(),
        s.subrange(pos, pos + spec_encode(a).len()) == spec_encode(a),
    ensures
        spec_parse_value(s, pos) == Some((a, pos + spec_encode(a).len())),
    decreases a, 0int,
{
    match a {
        AstView::Note { text } => lemma_parse_encoded_note(text, s, pos),
        AstView::Progression { children } => {
            assert(decreases_to!(a => children));
            lemma_parse_encoded_prog(children, s, pos);
        },
    }
}

/// Parsing the encoding of a note yields the note back.
#[verifier::rlimit(100)]
proof fn lemma_parse_encoded_note(text: Seq<char>, s: Seq<char>, pos: int)
    requires
        0 <= pos,
        pos + spec_encode(AstView::Note { text }).len() <= s.len(),
        s.subrange(pos, pos + spec_encode(AstView::Note { text }).len()) == spec_encode(
            AstView::Note { text },
        ),
    ensures
        spec_parse_value(s, pos) == Some(
            (AstView::Note { text }, pos + spec_encode(AstView::Note { text }).len()),
        ),
{
    reveal_strlit("\"}");
    lemma_token_shapes();
    let a = AstView::Note { text };
    let ll = spec_encode(a).len();
    {
        {
            lemma_note_prefix_shape();
            let np = note_prefix();
            let esc = spec_escape(text);
            assert(spec_encode(a) == np + esc + "\"}"@);
            assert(np + esc + "\"}"@ =~= np + (esc + "\"}"@));
            lemma_sub_decompose(s, pos, np, esc + "\"}"@);
            assert forall|k: int| 0 <= k < np.len() implies s[pos + k] == #[trigger] np[k] by {
                assert(s.subrange(pos, pos + np.len())[k] == s[pos + k]);
            }
            // the opening brace and the key
            assert(skip_ws(s, pos) == pos);
            assert(char_at(s, pos, '{'));
            assert(np.subrange(1, 7)[0] == np[1]);
            assert(skip_ws(s, pos + 1) == pos + 1);
            lemma_lit_within(s, pos, np, 1, q_type());
            // the colon and the tag
            assert(skip_ws(s, pos + 7) == pos + 7);
            assert(np.subrange(8, 14)[0] == np[8]);
            assert(skip_ws(s, pos + 8) == pos + 8);
            assert(expect_colon(s, pos + 7) == Some(pos + 8));
            lemma_lit_within(s, pos, np, 8, q_note());
            // the comma and the text key
            assert(skip_ws(s, pos + 14) == pos + 14);
            assert(np.subrange(15, 21)[0] == np[15]);
            assert(skip_ws(s, pos + 15) == pos + 15);
            assert(expect_comma(s, pos + 14) == Some(pos + 15));
            lemma_lit_within(s, pos, np, 15, q_text());
            // the colon and the opening quote of the text
            assert(skip_ws(s, pos + 21) == pos + 21);
            assert(skip_ws(s, pos + 22) == pos + 22);
            assert(expect_colon(s, pos + 21) == Some(pos + 22));
            assert(char_at(s, pos + 22, '"'));
            // the escaped text and its closing quote
            let p0 = pos + 23;
            assert((esc + "\"}"@).subrange(0, esc.len() as int) =~= esc);
            assert((esc + "\"}"@).subrange(esc.len() as int, (esc + "\"}"@).len() as int)
                =~= "\"}"@);
            lemma_sub_decompose(s, p0, esc, "\"}"@);
            let sub = s.subrange(p0 + esc.len(), p0 + esc.len() + 2);
            assert(s[p0 + esc.len()] == sub[0] && s[p0 + esc.len() + 1] == sub[1]);
            assert(s[p0 + esc.len()] == '"' && s[p0 + esc.len() + 1] == '}');
            lemma_parse_escaped_string(text, s, p0);
            assert(spec_parse_string(s, p0) == Some((text, p0 + esc.len() + 1)));
            // the closing brace
            let pe = p0 + esc.len() + 1;
            assert(skip_ws(s, pe) == pe);
            assert(expect_close(s, pe) == Some(pe + 1));
            assert(spec_parse_value(s, pos) == Some((a, pos + ll)));
        }
    }
}

/// Parsing the encoding of a progression yields the progression back.
#[verifier::rlimit(100)]
proof fn lemma_parse_encoded_prog(children: Seq<AstView>, s: Seq<char>, pos: int)
    requires
        0 <= pos,
        pos + spec_encode(AstView::Progression { children }).len() <= s.len(),
        s.subrange(pos, pos + spec_encode(AstView::Progression { children }).len())
            == spec_encode(AstView::Progression { children }),
    ensures
        spec_parse_value(s, pos) == Some(
            (
                AstView::Progression { children },
                pos + spec_encode(AstView::Progression { children }).len(),
            ),
        ),
    decreases children, 0int,
{
    reveal_strlit("]}");
    lemma_token_shapes();
    let a = AstView::Progression { children };
    let ll = spec_encode(a).len();
    {
        {
            lemma_prog_prefix_shape();
            let pp = prog_prefix();
            let el = spec_encode_list(children);
            assert(spec_encode(a) == pp + el + "]}"@);
            assert(pp + el + "]}"@ =~= pp + (el + "]}"@));
            lemma_sub_decompose(s, pos, pp, el + "]}"@);
            assert forall|k: int| 0 <= k < pp.len() implies s[pos + k] == #[trigger] pp[k] by {
                assert(s.subrange(pos, pos + pp.len())[k] == s[pos + k]);
            }
            // the opening brace and the key
            assert(skip_ws(s, pos) == pos);
            assert(char_at(s, pos, '{'));
            assert(pp.subrange(1, 7)[0] == pp[1]);
            assert(skip_ws(s, pos + 1) == pos + 1);
            lemma_lit_within(s, pos, pp, 1, q_type());
            // the colon and the tag: not the note tag, but the progression tag
            assert(skip_ws(s, pos + 7) == pos + 7);
            assert(pp.subrange(8, 21)[0] == pp[8]);
            assert(pp.subrange(8, 21)[1] == pp[9]);
            assert(skip_ws(s, pos + 8) == pos + 8);
            assert(expect_colon(s, pos + 7) == Some(pos + 8));
            assert(!lit_at(s, pos + 8, q_note())) by {
                if lit_at(s, pos + 8, q_note()) {
                    assert(s.subrange(pos + 8, pos + 14)[1] == s[pos + 9]);
                    assert(s[pos + 9] == 'n');
                    assert(s[pos + 9] == pp[9]);
                }
            }
            lemma_lit_within(s, pos, pp, 8, q_prog());
            // the comma and the children key
            assert(skip_ws(s, pos + 21) == pos + 21);
            assert(pp.subrange(22, 32)[0] == pp[22]);
            assert(skip_ws(s, pos + 22) == pos + 22);
            assert(expect_comma(s, pos + 21) == Some(pos + 22));
            lemma_lit_within(s, pos, pp, 22, q_children());
            // the colon and the opening bracket
            assert(skip_ws(s, pos + 32) == pos + 32);
            assert(skip_ws(s, pos + 33) == pos + 33);
            assert(expect_colon(s, pos + 32) == Some(pos + 33));
            assert(char_at(s, pos + 33, '['));
            // the child list and its closing bracket
            let lp = pos + 34;
            assert("]}"@ =~= seq![']'] + seq!['}']);
            assert(el + "]}"@ =~= (el + seq![']']) + seq!['}']);
            lemma_sub_decompose(s, lp, el + seq![']'], seq!['}']);
            let q = lp + el.len() + 1;
            assert(s[q] == s.subrange(q, q + 1)[0]);
            assert(s[q] == '}');
            lemma_encode_list_rest(children);
            if children.len() == 0 {
                assert(el + seq![']'] == seq![']']);
                assert(s[lp] == s.subrange(lp, lp + 1)[0]);
                assert(s[lp] == ']');
                assert(skip_ws(s, lp) == lp);
                assert(char_at(s, lp, ']'));
                assert(spec_parse_list(s, lp) == Some((Seq::<AstView>::empty(), lp + 1)));
                assert(Seq::<AstView>::empty() =~= children);
            } else {
                let first = children[0];
                let tail = children.subrange(1, children.len() as int);
                assert(el + seq![']'] == spec_encode(first) + spec_encode_rest(tail));
                lemma_sub_decompose(s, lp, spec_encode(first), spec_encode_rest(tail));
                assert(decreases_to!(children => children[0]));
                lemma_parse_encoded_value(first, s, lp);
                lemma_encode_first_char(first);
                assert(s[lp] == s.subrange(lp, lp + spec_encode(first).len())[0]);
                assert(s[lp] == '{');
                assert(skip_ws(s, lp) == lp);
                assert(!char_at(s, lp, ']'));
                let p1 = lp + spec_encode(first).len();
                assert(decreases_to!(children => tail));
                lemma_parse_encoded_rest(tail, s, p1);
                assert(spec_parse_rest(s, p1) == Some((tail, p1 + spec_encode_rest(tail).len())));
                assert(spec_parse_list(s, lp) == Some(
                    (seq![first] + tail, p1 + spec_encode_rest(tail).len()),
                ));
                assert(seq![first] + tail =~= children);
                assert(p1 + spec_encode_rest(tail).len() == q);
            }
            // the closing brace
            assert(skip_ws(s, q) == q);
            assert(expect_close(s, q) == Some(q + 1));
            assert(spec_parse_value(s, pos) == Some((a, pos + ll)));
        }
    }
}

/// Parsing the closing text of a child list yields the remaining children,
/// ending just past the closing bracket.
proof fn lemma_parse_encoded_rest(cs: Seq<AstView>, s: Seq<char>, pos: int)
    requires
        0 <= pos,
        pos + spec_encode_rest(cs).len() <= s.len(),
        s.subrange(pos, pos + spec_encode_rest(cs).len()) == spec_encode_rest(cs),
    ensures
        spec_parse_rest(s, pos) == Some((cs, pos + spec_encode_rest(cs).len())),
    decreases cs, 1int,
{
    if cs.len() == 0 {
        assert(s[pos] == s.subrange(pos, pos + 1)[0]);
        assert(s[pos] == ']');
        assert(skip_ws(s, pos) == pos);
        assert(char_at(s, pos, ']'));
        assert(spec_parse_rest(s, pos) == Some((Seq::<AstView>::empty(), pos + 1)));
        assert(Seq::<AstView>::empty() =~= cs);
    } else {
        let first = cs[0];
        let tail = cs.subrange(1, cs.len() as int);
        assert(spec_encode_rest(cs) == seq![','] + spec_encode(first) + spec_encode_rest(tail));
        assert(seq![','] + spec_encode(first) + spec_encode_rest(tail) =~= seq![','] + (
        spec_encode(first) + spec_encode_rest(tail)));
        lemma_sub_decompose(s, pos, seq![','], spec_encode(first) + spec_encode_rest(tail));
        assert(s[pos] == s.subrange(pos, pos + 1)[0]);
        assert(s[pos] == ',');
        assert(skip_ws(s, pos) == pos);
        assert(!char_at(s, pos, ']') && char_at(s, pos, ','));
        let p0 = pos + 1;
        lemma_sub_decompose(s, p0, spec_encode(first), spec_encode_rest(tail));
        lemma_parse_encoded_value(first, s, p0);
        let p1 = p0 + spec_encode(first).len();
        lemma_encode_first_char(first);
        lemma_parse_encoded_rest(tail, s, p1);
        assert(spec_parse_rest(s, p1) == Some((tail, p1 + spec_encode_rest(tail).len())));
        assert(spec_parse_rest(s, pos) == Some(
            (seq![first] + tail, p1 + spec_encode_rest(tail).len()),
        ));
        assert(seq![first] + tail =~= cs);
    }
}

/// The round trip: decoding the encoding of any tree yields that tree back,
/// structurally identical.
pub proof fn lemma_codec_round_trip(a: AstView)
    ensures
        spec_decode(spec_encode(a)) == Some(a),
{
    let s = spec_encode(a);
    assert(s.subrange(0, s.len() as int) =~= s);
    lemma_parse_encoded_value(a, s, 0);
    assert(skip_ws(s, s.len() as int) == s.len());
}

/// Decode a whole interchange text: one value filling the entire text, up to
/// insignificant whitespace around it.
pub open spec fn spec_decode(s: Seq<char>) -> Option<AstView> {
    match spec_parse_value(s, 0) {
        Some((a, p)) => if skip_ws(s, p) == s.len() {
            Some(a)
        } else {
            None
        },
        None => None,
    }
}

/// The decoder's diagnostic message for a text it rejects: one message for a
/// text with no interchange value at its head, another for characters left
/// after the value. A function of the text alone.
pub open spec fn spec_decode_err(s: Seq<char>) -> Seq<char> {
    if spec_parse_value(s, 0) is None {
        "malformed interchange value"@
    } else {
        "trailing characters after the interchange value"@
    }
}

/// The canonical interchange text of a tree.
pub fn encode_ast(ast: &AstNode) -> (r: String)
    ensures
        r@ == spec_encode(ast@),
{
    let mut out = String::new();
    encode_into(ast, &mut out);
    proof {
        assert(out@ =~= spec_encode(ast@));
    }
    out
}

// ---------------------------------------------------------------------
// The decoder.
// ---------------------------------------------------------------------
/// A failure to decode an interchange text, carrying the parser's
/// diagnostic message.
#[derive(Debug)]
pub struct DecodeError {
    pub msg: String,
}

/// A parse result with some already-parsed text put before its text.
spec fn glue_str(acc: Seq<char>, r: Option<(Seq<char>, int)>) -> Option<
    (Seq<char>, int),
> {
    match r {
        Some(tq) => Some((acc + tq.0, tq.1)),
        None => None,
    }
}

/// A parse result with some already-parsed children put before its children.
spec fn glue_list(acc: Seq<AstView>, r: Option<(Seq<AstView>, int)>) -> Option<
    (Seq<AstView>, int),
> {
    match r {
        Some(cq) => Some((acc + cq.0, cq.1)),
        None => None,
    }
}

proof fn lemma_glue_str_step(acc: Seq<char>, d: char, r: Option<(Seq<char>, int)>)
    ensures
        glue_str(
            acc,
            match r {
                Some(tq) => Some((seq![d] + tq.0, tq.1)),
                None => None,
            },
        ) == glue_str(acc.push(d), r),
{
    match r {
        Some(tq) => {
            assert(acc + (seq![d] + tq.0) =~= acc.push(d) + tq.0);
        },
        None => {},
    }
}

/// The characters of a string slice, in order.
fn str_chars(s: &str) -> (r: Vec<char>)
    ensures
        r@ == s@,
{
    let n = s.unicode_len();
    let mut out: Vec<char> = Vec::new();
    let mut i: usize = 0;
    while i < n
        invariant
            n == s@.len(),
            i <= n,
            out@ =~= s@.subrange(0, i as int),
        decreases n - i,
    {
        out.push(s.get_char(i));
        proof {
            assert(out@ =~= s@.subrange(0, i + 1));
        }
        i += 1;
    }
    proof {
        assert(out@ =~= s@);
    }
    out
}

/// Whether the given literal stands in `v` at position `pos`.
fn match_lit(v: &Vec<char>, pos: usize, lit: &str) -> (r: bool)
    requires
        pos <= v@.len(),
    ensures
        r == lit_at(v@, pos as int, lit@),
{
    let m = lit.unicode_len();
    let vlen = v.len();
    if vlen - pos < m {
        proof {
            assert(!lit_at(v@, pos as int, lit@));
        }
        return false;
    }
    let mut i: usize = 0;
    while i < m
        invariant
            m == lit@.len(),
            i <= m,
            vlen == v@.len(),
            pos + m <= v@.len(),
            forall|j: int| 0 <= j < i ==> v@[pos + j] == lit@[j],
        decreases m - i,
    {
        if v[pos + i] != lit.get_char(i) {
            proof {
                let sub = v@.subrange(pos as int, pos + m);
                assert(sub[i as int] != lit@[i as int]);
            }
            return false;
        }
        i += 1;
    }
    proof {
        assert(v@.subrange(pos as int, pos + m) =~= lit@);
    }
    true
}

/// The numeric value of a hexadecimal digit character.
fn hex_val(c: char) -> (r: Option<u32>)
    ensures
        r == spec_hex_val(c),
        r matches Some(x) ==> x < 16,
{
    let u = c as u32;
    if 48 <= u && u <= 57 {
        Some(u - 48)
    } else if 97 <= u && u <= 102 {
        Some(u - 87)
    } else if 65 <= u && u <= 70 {
        Some(u - 55)
    } else {
        None
    }
}

/// The character a short escape stands for.
fn unescape_char(e: char) -> (r: Option<char>)
    ensures
        r == spec_escape_shift(e),
{
    match e {
        '"' => Some('"'),
        '\\' => Some('\\'),
        '/' => Some('/'),
        'b' => Some('\u{8}'),
        'f' => Some('\u{c}'),
        'n' => Some('\n'),
        'r' => Some('\r'),
        't' => Some('\t'),
        _ => None,
    }
}

/// Parse a quoted string body at `pos`, producing the unescaped text and the
/// position just past the closing quote.
fn parse_string(v: &Vec<char>, pos: usize) -> (r: Option<(String, usize)>)
    requires
        pos <= v@.len(),
    ensures
        r matches Some(tp) ==> spec_parse_string(v@, pos as int) == Some((tp.0@, tp.1 as int))
            && pos < tp.1 <= v@.len(),
        r is None ==> spec_parse_string(v@, pos as int) is None,
{
    let mut out = String::new();
    let mut p = pos;
    loop
        invariant
            pos <= p <= v@.len(),
            glue_str(out@, spec_parse_string(v@, p as int)) == spec_parse_string(
                v@,
                pos as int,
            ),
        decreases v@.len() - p,
    {
        if p == v.len() {
            return None;
        }
        let c = v[p];
        if c == '"' {
            proof {
                assert(spec_parse_string(v@, p as int) == Some((Seq::<char>::empty(), p + 1)));
                assert(out@ + Seq::<char>::empty() =~= out@);
            }
            return Some((out, p + 1));
        } else if c == '\\' {
            if v.len() - p <= 1 {
                return None;
            }
            let e = v[p + 1];
            if e == 'u' {
                if v.len() - p <= 5 {
                    return None;
                }
                let h3 = hex_val(v[p + 2]);
                let h2 = hex_val(v[p + 3]);
                let h1 = hex_val(v[p + 4]);
                let h0 = hex_val(v[p + 5]);
                match (h3, h2, h1, h0) {
                    (Some(a3), Some(a2), Some(a1), Some(a0)) => {
                        let u = a3 * 4096 + a2 * 256 + a1 * 16 + a0;
                        if 0xD800 <= u && u < 0xDC00 {
                            if v.len() - p <= 11 {
                                return None;
                            }
                            if v[p + 6] != '\\' || v[p + 7] != 'u' {
                                return None;
                            }
                            let g3 = hex_val(v[p + 8]);
                            let g2 = hex_val(v[p + 9]);
                            let g1 = hex_val(v[p + 10]);
                            let g0 = hex_val(v[p + 11]);
                            match (g3, g2, g1, g0) {
                                (Some(b3), Some(b2), Some(b1), Some(b0)) => {
                                    let w = b3 * 4096 + b2 * 256 + b1 * 16 + b0;
                                    if !(0xDC00 <= w && w < 0xE000) {
                                        return None;
                                    }
                                    let cp = 0x10000 + (u - 0xD800) * 0x400 + (w - 0xDC00);
                                    match char::from_u32(cp) {
                                        Some(ch) => {
                                            proof {
                                                vstd::utf8::char_u32_cast(ch, cp);
                                                assert(spec_parse_string(v@, p as int) == (
                                                match spec_parse_string(v@, p + 12) {
                                                    Some(tq) => Some((seq![ch] + tq.0, tq.1)),
                                                    None => None,
                                                }));
                                                lemma_glue_str_step(
                                                    out@,
                                                    ch,
                                                    spec_parse_string(v@, p + 12),
                                                );
                                            }
                                            out.push(ch);
                                            p = p + 12;
                                        },
                                        None => {
                                            proof {
                                                assert(false);
                                            }
                                            return None;
                                        },
                                    }
                                },
                                _ => {
                                    return None;
                                },
                            }
                        } else if 0xDC00 <= u && u < 0xE000 {
                            return None;
                        } else {
                            match char::from_u32(u) {
                                Some(ch) => {
                                    proof {
                                        vstd::utf8::char_u32_cast(ch, u);
                                        assert(spec_parse_string(v@, p as int) == (
                                        match spec_parse_string(v@, p + 6) {
                                            Some(tq) => Some((seq![ch] + tq.0, tq.1)),
                                            None => None,
                                        }));
                                        lemma_glue_str_step(
                                            out@,
                                            ch,
                                            spec_parse_string(v@, p + 6),
                                        );
                                    }
                                    out.push(ch);
                                    p = p + 6;
                                },
                                None => {
                                    proof {
                                        assert(false);
                                    }
                                    return None;
                                },
                            }
                        }
                    },
                    _ => {
                        return None;
                    },
                }
            } else {
                match unescape_char(e) {
                    Some(d) => {
                        proof {
                            assert(spec_parse_string(v@, p as int) == (
                            match spec_parse_string(v@, p + 2) {
                                Some(tq) => Some((seq![d] + tq.0, tq.1)),
                                None => None,
                            }));
                            lemma_glue_str_step(out@, d, spec_parse_string(v@, p + 2));
                        }
                        out.push(d);
                        p = p + 2;
                    },
                    None => {
                        return None;
                    },
                }
            }
        } else if (c as u32) < 0x20 {
            return None;
        } else {
            proof {
                assert(spec_parse_string(v@, p as int) == (
                match spec_parse_string(v@, p + 1) {
                    Some(tq) => Some((seq![c] + tq.0, tq.1)),
                    None => None,
                }));
                lemma_glue_str_step(out@, c, spec_parse_string(v@, p + 1));
            }
            out.push(c);
            p = p + 1;
        }
    }
}

/// Whether a character is insignificant whitespace.
fn is_ws_char(c: char) -> (b: bool)
    ensures
        b == is_ws(c),
{
    c == ' ' || c == '\t' || c == '\n' || c == '\r'
}

/// Skip insignificant whitespace.
fn skip_ws_run(v: &Vec<char>, pos: usize) -> (r: usize)
    requires
        pos <= v@.len(),
    ensures
        r as int == skip_ws(v@, pos as int),
        pos <= r <= v@.len(),
{
    let mut p = pos;
    while p < v.len() && is_ws_char(v[p])
        invariant
            pos <= p <= v@.len(),
            skip_ws(v@, p as int) == skip_ws(v@, pos as int),
        decreases v@.len() - p,
    {
        p += 1;
    }
    p
}

/// Expect a colon after a key, with whitespace around it; the position of
/// the value that follows.
fn expect_colon_run(v: &Vec<char>, pos: usize) -> (r: Option<usize>)
    requires
        pos <= v@.len(),
    ensures
        r matches Some(p) ==> expect_colon(v@, pos as int) == Some(p as int) && pos < p
            <= v@.len(),
        r is None ==> expect_colon(v@, pos as int) is None,
{
    let p = skip_ws_run(v, pos);
    if p < v.len() && v[p] == ':' {
        Some(skip_ws_run(v, p + 1))
    } else {
        None
    }
}

/// Expect a comma between members, with whitespace around it; the position
/// of the key that follows.
fn expect_comma_run(v: &Vec<char>, pos: usize) -> (r: Option<usize>)
    requires
        pos <= v@.len(),
    ensures
        r matches Some(p) ==> expect_comma(v@, pos as int) == Some(p as int) && pos < p
            <= v@.len(),
        r is None ==> expect_comma(v@, pos as int) is None,
{
    let p = skip_ws_run(v, pos);
    if p < v.len() && v[p] == ',' {
        Some(skip_ws_run(v, p + 1))
    } else {
        None
    }
}

/// Expect the closing brace after the last member, with whitespace before
/// it; the position just past it.
fn expect_close_run(v: &Vec<char>, pos: usize) -> (r: Option<usize>)
    requires
        pos <= v@.len(),
    ensures
        r matches Some(p) ==> expect_close(v@, pos as int) == Some(p as int) && pos < p
            <= v@.len(),
        r is None ==> expect_close(v@, pos as int) is None,
{
    let p = skip_ws_run(v, pos);
    if p < v.len() && v[p] == '}' {
        Some(p + 1)
    } else {
        None
    }
}

/// Parse one interchange value at `pos`.
fn parse_value(v: &Vec<char>, pos: usize) -> (r: Option<(AstNode, usize)>)
    requires
        pos <= v@.len(),
    ensures
        r matches Some(ap) ==> spec_parse_value(v@, pos as int) == Some((ap.0@, ap.1 as int))
            && pos < ap.1 <= v@.len(),
        r is None ==> spec_parse_value(v@, pos as int) is None,
    decreases v@.len() - pos, 2int,
{
    let vlen = v.len();
    let p0 = skip_ws_run(v, pos);
    if !(p0 < vlen && v[p0] == '{') {
        return None;
    }
    let p1 = skip_ws_run(v, p0 + 1);
    if match_lit(v, p1, "\"type\"") {
        proof {
            reveal_strlit("\"type\"");
            assert(q_type().len() == 6);
        }
        match expect_colon_run(v, p1 + 6) {
            Some(pv) => {
                if match_lit(v, pv, "\"note\"") {
                    proof {
                        reveal_strlit("\"note\"");
                        assert(q_note().len() == 6);
                    }
                    match expect_comma_run(v, pv + 6) {
                        Some(pk) => {
                            if match_lit(v, pk, "\"text\"") {
                                proof {
                                    reveal_strlit("\"text\"");
                                    assert(q_text().len() == 6);
                                }
                                match expect_colon_run(v, pk + 6) {
                                    Some(ps) => {
                                        if ps < vlen && v[ps] == '"' {
                                            match parse_string(v, ps + 1) {
                                                Some((t, pe)) => match expect_close_run(v, pe) {
                                                    Some(end) => {
                                                        let node = AstNode::Note { text: t };
                                                        proof {
                                                            assert(node@ == (AstView::Note {
                                                                text: t@,
                                                            }));
                                                        }
                                                        Some((node, end))
                                                    },
                                                    None => None,
                                                },
                                                None => None,
                                            }
                                        } else {
                                            None
                                        }
                                    },
                                    None => None,
                                }
                            } else {
                                None
                            }
                        },
                        None => None,
                    }
                } else if match_lit(v, pv, "\"progression\"") {
                    proof {
                        reveal_strlit("\"progression\"");
                        assert(q_prog().len() == 13);
                    }
                    match expect_comma_run(v, pv + 13) {
                        Some(pk) => {
                            if match_lit(v, pk, "\"children\"") {
                                proof {
                                    reveal_strlit("\"children\"");
                                    assert(q_children().len() == 10);
                                }
                                match expect_colon_run(v, pk + 10) {
                                    Some(pa) => {
                                        if pa < vlen && v[pa] == '[' && pos < pa {
                                            match parse_list(v, pa + 1) {
                                                Some((cs, pe)) => match expect_close_run(v, pe) {
                                                    Some(end) => {
                                                        let node = AstNode::Progression {
                                                            children: cs,
                                                        };
                                                        proof {
                                                            assert(node@
                                                                == (AstView::Progression {
                                                                children: views_of(cs@),
                                                            }));
                                                        }
                                                        Some((node, end))
                                                    },
                                                    None => None,
                                                },
                                                None => None,
                                            }
                                        } else {
                                            None
                                        }
                                    },
                                    None => None,
                                }
                            } else {
                                None
                            }
                        },
                        None => None,
                    }
                } else {
                    None
                }
            },
            None => None,
        }
    } else if match_lit(v, p1, "\"text\"") {
        proof {
            reveal_strlit("\"text\"");
            assert(q_text().len() == 6);
        }
        match expect_colon_run(v, p1 + 6) {
            Some(ps) => {
                if ps < vlen && v[ps] == '"' {
                    match parse_string(v, ps + 1) {
                        Some((t, pe)) => match expect_comma_run(v, pe) {
                            Some(pk) => {
                                if match_lit(v, pk, "\"type\"") {
                                    proof {
                                        reveal_strlit("\"type\"");
                                        assert(q_type().len() == 6);
                                    }
                                    match expect_colon_run(v, pk + 6) {
                                        Some(pv) => {
                                            if match_lit(v, pv, "\"note\"") {
                                                proof {
                                                    reveal_strlit("\"note\"");
                                                    assert(q_note().len() == 6);
                                                }
                                                match expect_close_run(v, pv + 6) {
                                                    Some(end) => {
                                                        let node = AstNode::Note { text: t };
                                                        proof {
                                                            assert(node@ == (AstView::Note {
                                                                text: t@,
                                                            }));
                                                        }
                                                        Some((node, end))
                                                    },
                                                    None => None,
                                                }
                                            } else {
                                                None
                                            }
                                        },
                                        None => None,
                                    }
                                } else {
                                    None
                                }
                            },
                            None => None,
                        },
                        None => None,
                    }
                } else {
                    None
                }
            },
            None => None,
        }
    } else if match_lit(v, p1, "\"children\"") {
        proof {
            reveal_strlit("\"children\"");
            assert(q_children().len() == 10);
        }
        match expect_colon_run(v, p1 + 10) {
            Some(pa) => {
                if pa < vlen && v[pa] == '[' && pos < pa {
                    match parse_list(v, pa + 1) {
                        Some((cs, pe)) => match expect_comma_run(v, pe) {
                            Some(pk) => {
                                if match_lit(v, pk, "\"type\"") {
                                    proof {
                                        reveal_strlit("\"type\"");
                                        assert(q_type().len() == 6);
                                    }
                                    match expect_colon_run(v, pk + 6) {
                                        Some(pv) => {
                                            if match_lit(v, pv, "\"progression\"") {
                                                proof {
                                                    reveal_strlit("\"progression\"");
                                                    assert(q_prog().len() == 13);
                                                }
                                                match expect_close_run(v, pv + 13) {
                                                    Some(end) => {
                                                        let node = AstNode::Progression {
                                                            children: cs,
                                                        };
                                                        proof {
                                                            assert(node@
                                                                == (AstView::Progression {
                                                                children: views_of(cs@),
                                                            }));
                                                        }
                                                        Some((node, end))
                                                    },
                                                    None => None,
                                                }
                                            } else {
                                                None
                                            }
                                        },
                                        None => None,
                                    }
                                } else {
                                    None
                                }
                            },
                            None => None,
                        },
                        None => None,
                    }
                } else {
                    None
                }
            },
            None => None,
        }
    } else {
        None
    }
}

/// Parse a child list at `pos`, up to and including its closing bracket.
fn parse_list(v: &Vec<char>, pos: usize) -> (r: Option<(Vec<AstNode>, usize)>)
    requires
        pos <= v@.len(),
    ensures
        r matches Some(cp) ==> spec_parse_list(v@, pos as int) == Some(
            (views_of(cp.0@), cp.1 as int),
        ) && pos < cp.1 <= v@.len(),
        r is None ==> spec_parse_list(v@, pos as int) is None,
    decreases v@.len() - pos, 3int,
{
    let head = skip_ws_run(v, pos);
    if head < v.len() && v[head] == ']' {
        let out: Vec<AstNode> = Vec::new();
        proof {
            assert(views_of(out@) =~= Seq::<AstView>::empty());
        }
        return Some((out, head + 1));
    }
    let mut out: Vec<AstNode> = Vec::new();
    let mut cur: usize;
    match parse_value(v, head) {
        Some((a, p)) => {
            proof {
                lemma_views_of(out@.push(a));
                assert(views_of(out@.push(a)) =~= seq![a@]);
            }
            out.push(a);
            cur = p;
        },
        None => {
            return None;
        },
    }
    let ghost whole = spec_parse_list(v@, pos as int);
    proof {
        assert(glue_list(views_of(out@), spec_parse_rest(v@, cur as int)) == whole);
    }
    loop
        invariant
            pos < cur <= v@.len(),
            whole == spec_parse_list(v@, pos as int),
            glue_list(views_of(out@), spec_parse_rest(v@, cur as int)) == whole,
        decreases v@.len() - cur,
    {
        let next = skip_ws_run(v, cur);
        if next < v.len() && v[next] == ']' {
            proof {
                assert(spec_parse_rest(v@, cur as int) == Some(
                    (Seq::<AstView>::empty(), next + 1),
                ));
                assert(views_of(out@) + Seq::<AstView>::empty() =~= views_of(out@));
            }
            return Some((out, next + 1));
        }
        if next < v.len() && v[next] == ',' {
            match parse_value(v, next + 1) {
                Some((a, p)) => {
                    proof {
                        let acc = views_of(out@);
                        let pushed = out@.push(a);
                        lemma_views_of(out@);
                        lemma_views_of(pushed);
                        assert forall|j: int| 0 <= j < pushed.len() implies views_of(pushed)[j]
                            == acc.push(a@)[j] by {
                            assert(views_of(pushed)[j] == view_of(pushed[j]));
                            if j < out@.len() {
                                assert(pushed[j] == out@[j]);
                                assert(acc[j] == view_of(out@[j]));
                            } else {
                                assert(pushed[j] == a);
                            }
                        }
                        assert(views_of(out@.push(a)) =~= acc.push(a@));
                        assert(spec_parse_rest(v@, cur as int) == (
                        match spec_parse_rest(v@, p as int) {
                            Some(cq) => Some((seq![a@] + cq.0, cq.1)),
                            None => None,
                        }));
                        match spec_parse_rest(v@, p as int) {
                            Some(cq) => {
                                assert(acc + (seq![a@] + cq.0) =~= acc.push(a@) + cq.0);
                            },
                            None => {},
                        }
                    }
                    out.push(a);
                    cur = p;
                },
                None => {
                    return None;
                },
            }
        } else {
            return None;
        }
    }
}

/// Decode an interchange text to a tree: an interchange object in any
/// spelling of the shape — the two members in either order, insignificant
/// whitespace between tokens, standard string escapes including surrogate
/// pairs. Keys and variant tags are recognized in their plain spelling. Any
/// other input, including characters left after the value, fails with a
/// diagnostic message that is a function of the input.
pub fn decode_ast(s: &str) -> (r: Result<AstNode, DecodeError>)
    ensures
        r matches Ok(a) ==> spec_decode(s@) == Some(a@),
        r is Err <==> spec_decode(s@) is None,
        r matches Err(e) ==> e.msg@ == spec_decode_err(s@) && e.msg@.len() > 0,
{
    let chars = str_chars(s);
    match parse_value(&chars, 0) {
        Some((a, p)) => {
            let tail = skip_ws_run(&chars, p);
            if tail == chars.len() {
                Ok(a)
            } else {
                let msg = String::from_str("trailing characters after the interchange value");
                proof {
                    reveal_strlit("trailing characters after the interchange value");
                }
                Err(DecodeError { msg })
            }
        },
        None => {
            let msg = String::from_str("malformed interchange value");
            proof {
                reveal_strlit("malformed interchange value");
            }
            Err(DecodeError { msg })
        },
    }
}

} // verus!
