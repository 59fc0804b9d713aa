pub mod numbers;
pub mod text;
pub mod version;
pub mod xml;

use vstd::prelude::*;
use crate::text::{opt_text, push_char};
use crate::xml::constants::{START_DOCUMENT, END_DOCUMENT, START_TAG, END_TAG, TEXT};
use crate::xml::namespace_stack::{accumulated, entry_at};
use crate::xml::parser::{
    AXmlParser, AttributeValue, ParserModel, ValueModel, MAX_WORDS, attribute_prefix_index,
    attribute_value, attribute_word, lemma_next_progress, next_state, pool_string, remaining,
    tag_prefix_index,
};
use crate::xml::reader::{MAX_INPUT_BYTES, ReaderModel, le_words};

verus! {

/// A piece of the text rendering of a manifest: text, or the data word of a
/// dimension or fraction value, whose number is a floating-point value.
pub enum ManifestPiece {
    Text(String),
    Complex(i32),
}

/// What a piece holds.
pub enum PieceModel {
    Text(Seq<char>),
    Complex(i32),
}

impl View for ManifestPiece {
    type V = PieceModel;

    open spec fn view(&self) -> PieceModel {
        match self {
            ManifestPiece::Text(t) => PieceModel::Text(t@),
            ManifestPiece::Complex(d) => PieceModel::Complex(*d),
        }
    }
}

/// Why a manifest cannot be rendered.
#[derive(Debug, PartialEq, Eq, Structural)]
pub enum ManifestError {
    /// The document is not one that the decoder can read through.
    Malformed,
}

/// The pieces of a vector of pieces.
pub open spec fn pieces(v: Seq<ManifestPiece>) -> Seq<PieceModel> {
    v.map_values(|p: ManifestPiece| p@)
}

/// `a` followed by what `rest` holds, if it holds anything.
pub open spec fn then(a: Seq<PieceModel>, rest: Option<Seq<PieceModel>>) -> Option<Seq<PieceModel>> {
    match rest {
        Some(r) => Some(a + r),
        None => None,
    }
}

/// The indentation of nesting level `level`: three spaces a level.
pub open spec fn indent(level: nat) -> Seq<char> {
    Seq::new(3 * level, |i: int| ' ')
}

/// A namespace prefix as it is written before a name: with a colon, unless it is empty.
pub open spec fn prefix_text(p: Seq<char>) -> Seq<char> {
    if p.len() == 0 {
        Seq::empty()
    } else {
        p + ":"@
    }
}

/// The text of an optional string, empty when there is none.
pub open spec fn or_empty(o: Option<Seq<char>>) -> Seq<char> {
    match o {
        Some(t) => t,
        None => Seq::empty(),
    }
}

/// A line of text.
pub open spec fn line(text: Seq<char>) -> PieceModel {
    PieceModel::Text(text + "\r\n"@)
}

/// The declaration lines of the namespaces `i` to `nc`; `None` where a
/// string cannot be looked up.
pub open spec fn namespace_lines(s: ParserModel, level: nat, i: int, nc: int) -> Option<Seq<PieceModel>>
    decreases nc - i,
{
    if i >= nc {
        Some(Seq::empty())
    } else {
        match (pool_string(s, entry_at(s.namespaces, i as i32, true)), pool_string(s, entry_at(s.namespaces, i as i32, false))) {
            (Some(p), Some(u)) => then(
                seq![line(indent(level) + "xmlns:"@ + or_empty(p) + "=\""@ + or_empty(u) + "\""@)],
                namespace_lines(s, level, i + 1, nc),
            ),
            _ => None,
        }
    }
}

/// The line (or, for a complex value, the pieces) of one attribute.
pub open spec fn attribute_pieces(head: Seq<char>, v: ValueModel) -> Seq<PieceModel> {
    match v {
        ValueModel::Text(t) => seq![line(head + t + "\""@)],
        ValueModel::Complex(data, unit) => seq![
            PieceModel::Text(head),
            PieceModel::Complex(data),
            line(unit + "\""@),
        ],
    }
}

/// The lines of the attributes `j` to `count` of the current tag; `None`
/// where a string or a value cannot be looked up.
pub open spec fn attribute_lines(s: ParserModel, level: nat, j: int, count: int) -> Option<Seq<PieceModel>>
    decreases count - j,
{
    if j >= count {
        Some(Seq::empty())
    } else {
        let jj = j as i32;
        match (pool_string(s, attribute_prefix_index(s, jj)), pool_string(s, attribute_word(s, jj, 1)), attribute_value(s, jj)) {
            (Some(p), Some(n), Some(v)) => then(
                attribute_pieces(indent(level) + prefix_text(or_empty(p)) + or_empty(n) + "=\""@, v),
                attribute_lines(s, level, j + 1, count),
            ),
            _ => None,
        }
    }
}

/// The declaration line of namespace `i` alone; `None` where its prefix or
/// uri cannot be looked up.
pub open spec fn one_namespace(s: ParserModel, level: nat, i: int) -> Option<Seq<PieceModel>> {
    match (pool_string(s, entry_at(s.namespaces, i as i32, true)), pool_string(s, entry_at(s.namespaces, i as i32, false))) {
        (Some(p), Some(u)) => Some(
            seq![line(indent(level) + "xmlns:"@ + or_empty(p) + "=\""@ + or_empty(u) + "\""@)],
        ),
        _ => None,
    }
}

proof fn lemma_namespace_lines_append(s: ParserModel, level: nat, i: int, n: int)
    requires
        i <= n,
    ensures
        namespace_lines(s, level, i, n + 1) == match (namespace_lines(s, level, i, n), one_namespace(s, level, n)) {
            (Some(r), Some(a)) => Some(r + a),
            _ => None,
        },
    decreases n - i,
{
    if i == n {
        assert(namespace_lines(s, level, n + 1, n + 1) == Some(Seq::<PieceModel>::empty()));
        if let Some(a) = one_namespace(s, level, n) {
            assert(a + Seq::<PieceModel>::empty() =~= a);
            assert(Seq::<PieceModel>::empty() + a =~= a);
        }
    } else {
        lemma_namespace_lines_append(s, level, i + 1, n);
        if let (Some(r), Some(a)) = (namespace_lines(s, level, i + 1, n), one_namespace(s, level, n)) {
            if let Some(h) = one_namespace(s, level, i) {
                assert(h + (r + a) =~= (h + r) + a);
            }
        }
    }
}

/// The declaration lines of a tag grow one declaration at a time: those of
/// `b..n + 1` are those of `b..n` followed by the line of declaration `n`,
/// and cannot be rendered where either cannot.
pub proof fn law_namespace_lines_append(s: ParserModel, level: nat, b: int, n: int)
    requires
        b <= n,
    ensures
        namespace_lines(s, level, b, n + 1) == match (namespace_lines(s, level, b, n), one_namespace(s, level, n)) {
            (Some(r), Some(a)) => Some(r + a),
            _ => None,
        },
        namespace_lines(s, level, b, b) == Some(Seq::<PieceModel>::empty()),
{
    lemma_namespace_lines_append(s, level, b, n);
}

/// Each nesting level indents by three spaces.
pub proof fn law_indent(level: nat)
    ensures
        indent(level).len() == 3 * level,
        forall|i: int| 0 <= i < indent(level).len() ==> #[trigger] indent(level)[i] == ' ',
        indent(level + 1) == indent(level) + "   "@,
{
    reveal_strlit("   ");
    assert(indent(level + 1) =~= indent(level) + "   "@);
}

/// The pieces of attribute `j` alone; `None` where its prefix, its name or
/// its value cannot be looked up.
pub open spec fn one_attribute(s: ParserModel, level: nat, j: int) -> Option<Seq<PieceModel>> {
    let jj = j as i32;
    match (pool_string(s, attribute_prefix_index(s, jj)), pool_string(s, attribute_word(s, jj, 1)), attribute_value(s, jj)) {
        (Some(p), Some(n), Some(v)) => Some(
            attribute_pieces(indent(level) + prefix_text(or_empty(p)) + or_empty(n) + "=\""@, v),
        ),
        _ => None,
    }
}

proof fn lemma_attribute_lines_append(s: ParserModel, level: nat, j: int, n: int)
    requires
        0 <= j <= n,
    ensures
        attribute_lines(s, level, j, n + 1) == match (attribute_lines(s, level, j, n), one_attribute(s, level, n)) {
            (Some(r), Some(a)) => Some(r + a),
            _ => None,
        },
    decreases n - j,
{
    if j == n {
        assert(attribute_lines(s, level, n + 1, n + 1) == Some(Seq::<PieceModel>::empty()));
        if let Some(a) = one_attribute(s, level, n) {
            assert(a + Seq::<PieceModel>::empty() =~= a);
            assert(Seq::<PieceModel>::empty() + a =~= a);
        }
    } else {
        lemma_attribute_lines_append(s, level, j + 1, n);
        if let (Some(r), Some(a)) = (attribute_lines(s, level, j + 1, n), one_attribute(s, level, n)) {
            if let Some(h) = one_attribute(s, level, j) {
                assert(h + (r + a) =~= (h + r) + a);
            }
        }
    }
}

/// The attribute lines of a tag grow one attribute at a time, whatever the
/// number of attributes: the lines of attributes `0..n + 1` are those of
/// `0..n` followed by the pieces of attribute `n`, and cannot be rendered
/// where either cannot.
pub proof fn law_attribute_lines_append(s: ParserModel, level: nat, n: int)
    requires
        0 <= n,
    ensures
        attribute_lines(s, level, 0, n + 1) == match (attribute_lines(s, level, 0, n), one_attribute(s, level, n)) {
            (Some(r), Some(a)) => Some(r + a),
            _ => None,
        },
{
    lemma_attribute_lines_append(s, level, 0, n);
}

/// Rendering no attributes gives no pieces.
pub proof fn law_attribute_lines_empty(s: ParserModel, level: nat)
    ensures
        attribute_lines(s, level, 0, 0) == Some(Seq::<PieceModel>::empty()),
{
}

/// The rendering of the parser's current event at nesting level `level`,
/// with the level after it; `None` where it cannot be rendered (a string
/// that cannot be looked up, a start tag without a name, an end tag at level 0).
pub open spec fn render_event(s: ParserModel, level: nat) -> Option<(Seq<PieceModel>, nat)> {
    if s.event == START_DOCUMENT {
        Some((seq![line("<?xml version=\"1.0\" encoding=\"utf-8\"?>"@)], level))
    } else if s.event == START_TAG {
        match (pool_string(s, tag_prefix_index(s)), pool_string(s, s.name)) {
            (Some(p), Some(Some(n))) => {
                let inner = level + 1;
                let depth = s.namespaces.len() - 1;
                let ncb = accumulated(s.namespaces, (depth - 1) as i32);
                let nc = accumulated(s.namespaces, depth as i32);
                match (namespace_lines(s, inner, ncb, nc), attribute_lines(s, inner, 0, (s.attributes.len() / 5) as int)) {
                    (Some(a), Some(b)) => Some(
                        (
                            seq![line(indent(level) + "<"@ + prefix_text(or_empty(p)) + n)] + a + b
                                + seq![line(indent(inner) + ">"@)],
                            inner,
                        ),
                    ),
                    _ => None,
                }
            },
            _ => None,
        }
    } else if s.event == END_TAG {
        if level == 0 {
            None
        } else {
            let outer = (level - 1) as nat;
            match (pool_string(s, tag_prefix_index(s)), pool_string(s, s.name)) {
                (Some(p), Some(n)) => Some(
                    (
                        seq![line(indent(outer) + "</"@ + prefix_text(or_empty(p)) + or_empty(n) + ">"@)],
                        outer,
                    ),
                ),
                _ => None,
            }
        }
    } else if s.event == TEXT {
        match pool_string(s, s.name) {
            Some(t) => Some((seq![line(indent(level) + or_empty(t))], level)),
            None => None,
        }
    } else {
        Some((Seq::empty(), level))
    }
}

/// Rendering a start tag goes one level deeper, rendering an end tag one
/// level up (and fails at the top level); other events keep the level.
pub proof fn law_render_levels(s: ParserModel, level: nat)
    ensures
        render_event(s, level) matches Some((_, next)) ==> (if s.event == START_TAG {
            next == level + 1
        } else if s.event == END_TAG {
            level > 0 && next + 1 == level
        } else {
            next == level
        }),
        s.event == END_TAG && level == 0 ==> render_event(s, level) is None,
{
}

/// The words left to the parser's reader.
pub open spec fn reader_measure(s: ParserModel) -> nat {
    match s.reader {
        Some(r) => remaining(r),
        None => 0,
    }
}

/// The rendering of the events from the parser's next one up to the end of
/// the document; `None` where an event cannot be reached or rendered.
pub open spec fn run(s: ParserModel, level: nat) -> Option<Seq<PieceModel>>
    decreases reader_measure(s),
{
    match next_state(s) {
        None => None,
        Some(t) => if t.event == END_DOCUMENT {
            Some(Seq::empty())
        } else {
            match render_event(t, level) {
                None => None,
                Some((ps, next_level)) => {
                    proof {
                        lemma_next_progress(s);
                    }
                    then(ps, run(t, next_level))
                },
            }
        },
    }
}

/// A fresh parser opened on `bytes`.
pub open spec fn opened(bytes: Seq<u8>) -> ParserModel {
    ParserModel {
        reader: Some(ReaderModel { data: le_words(bytes), pos: 0 }),
        operational: false,
        strings: None,
        resource_ids: None,
        namespaces: Seq::empty(),
        decrease_depth: false,
        event: -1i32,
        line_number: -1i32,
        name: -1i32,
        namespace_uri: -1i32,
        attributes: Seq::empty(),
        id_attribute: -1i32,
        class_attribute: -1i32,
        style_attribute: -1i32,
    }
}

/// The text rendering of the binary XML document `bytes`; `None` where the
/// document cannot be read through (its length is not a multiple of four, or
/// `run` fails).
pub open spec fn manifest(bytes: Seq<u8>) -> Option<Seq<PieceModel>> {
    if bytes.len() % 4 != 0 {
        None
    } else {
        run(opened(bytes), 0)
    }
}

proof fn lemma_then_assoc(a: Seq<PieceModel>, b: Seq<PieceModel>, r: Option<Seq<PieceModel>>)
    ensures
        then(a, then(b, r)) == then(a + b, r),
{
    if let Some(x) = r {
        assert(a + (b + x) =~= (a + b) + x);
    }
}

/// Renders the binary XML document `file` (an Android manifest) as indented
/// text: the XML declaration, then for each start tag a line with its name,
/// a line for each namespace it declares and each attribute, and a line `>`;
/// for each end tag a closing line; for each text its line. Each line ends
/// with CR LF. Dimension and fraction values are left as their data words.
#[verifier::rlimit(40)]
pub fn parse_android_manifest(file: &[u8]) -> (result: Result<Vec<ManifestPiece>, ManifestError>)
    requires
        file@.len() <= MAX_INPUT_BYTES,
    ensures
        match manifest(file@) {
            Some(ps) => result matches Ok(v) && pieces(v@) == ps,
            None => result == Err::<Vec<ManifestPiece>, ManifestError>(ManifestError::Malformed),
        },
{
    if file.len() % 4 != 0 {
        return Err(ManifestError::Malformed);
    }
    let mut parser = AXmlParser::new();
    parser.open(file);
    assert(parser@ == opened(file@));
    let ghost target = manifest(file@);
    let mut level: usize = 0;
    let mut result: Vec<ManifestPiece> = Vec::new();
    assert(pieces(result@) =~= Seq::<PieceModel>::empty());
    loop
        invariant_except_break
            target == then(pieces(result@), run(parser@, level as nat)),
            level <= parser@.reader.unwrap().pos,
        invariant
            parser.wf(),
            parser@.reader is Some,
            target == manifest(file@),
        ensures
            target == Some(pieces(result@)),
        decreases reader_measure(parser@),
    {
        let ghost before = parser@;
        proof {
            lemma_next_progress(before);
            parser.lemma_reader_bound();
        }
        let tp = match parser.try_next() {
            Some(t) => t,
            None => {
                return Err(ManifestError::Malformed);
            },
        };
        if tp == END_DOCUMENT {
            assert(pieces(result@) + Seq::<PieceModel>::empty() =~= pieces(result@));
            break ;
        }
        let ghost after = parser@;
        let (ps, next_level) = match render_current(&parser, level) {
            Some(r) => r,
            None => {
                return Err(ManifestError::Malformed);
            },
        };
        let ghost old_result = pieces(result@);
        let ghost part = pieces(ps@);
        let mut ps = ps;
        result.append(&mut ps);
        proof {
            assert(pieces(result@) =~= old_result + part);
            lemma_then_assoc(old_result, part, run(after, next_level as nat));
        }
        level = next_level;
    }
    Ok(result)
}

/// A namespace prefix as it is written before a name: with a colon, unless it is empty.
fn get_namespace_prefix(prefix: String) -> (p: String)
    ensures
        p@ == prefix_text(prefix@),
{
    if prefix.as_str().unicode_len() == 0 {
        String::new()
    } else {
        let mut p = prefix;
        p.append(":");
        p
    }
}

/// The text of an optional string, empty when there is none.
fn or_empty_string(o: Option<String>) -> (t: String)
    ensures
        t@ == or_empty(opt_text(o)),
{
    match o {
        Some(t) => t,
        None => String::new(),
    }
}

/// The indentation of nesting level `level`.
fn indent_text(level: usize) -> (t: String)
    requires
        level <= MAX_WORDS + 4,
    ensures
        t@ == indent(level as nat),
{
    let mut t = String::new();
    let mut k: usize = 0;
    while k < level
        invariant
            k <= level,
            level <= MAX_WORDS + 4,
            t@ == indent(k as nat),
        decreases level - k,
    {
        push_char(&mut t, ' ');
        push_char(&mut t, ' ');
        push_char(&mut t, ' ');
        k = k + 1;
        assert(t@ =~= indent(k as nat));
    }
    t
}

/// A line of text as a piece.
fn line_piece(text: String) -> (p: ManifestPiece)
    ensures
        p@ == line(text@),
{
    let mut t = text;
    t.append("\r\n");
    ManifestPiece::Text(t)
}

/// Carries out `render_event` for the parser's current event.
fn render_current(parser: &AXmlParser, level: usize) -> (r: Option<(Vec<ManifestPiece>, usize)>)
    requires
        parser.wf(),
        level <= MAX_WORDS + 3,
    ensures
        match render_event(parser@, level as nat) {
            Some((ps, l)) => r matches Some((v, k)) && pieces(v@) == ps && k == l,
            None => r is None,
        },
{
    let ghost s = parser@;
    let event = parser.event();
    let mut out: Vec<ManifestPiece> = Vec::new();
    if event == START_DOCUMENT {
        let mut t = String::new();
        t.append("<?xml version=\"1.0\" encoding=\"utf-8\"?>");
        out.push(line_piece(t));
        assert(pieces(out@) =~= seq![line("<?xml version=\"1.0\" encoding=\"utf-8\"?>"@)]);
        Some((out, level))
    } else if event == START_TAG {
        let prefix = match parser.prefix_string() {
            Some(p) => p,
            None => {
                return None;
            },
        };
        let name = match parser.name_string() {
            Some(Some(n)) => n,
            _ => {
                return None;
            },
        };
        let mut t = indent_text(level);
        t.append("<");
        let pfx = get_namespace_prefix(or_empty_string(prefix));
        t.append(pfx.as_str());
        t.append(name.as_str());
        out.push(line_piece(t));
        let inner = level + 1;
        let ghost first = pieces(out@);
        let depth = parser.get_depth();
        let ncb = parser.get_namespace_count(depth - 1);
        let nc = parser.get_namespace_count(depth);
        let ns_out = match namespace_lines_exec(parser, inner, ncb, nc) {
            Some(v) => v,
            None => {
                return None;
            },
        };
        proof {
            parser.lemma_attribute_bound();
        }
        let count = parser.get_attribute_count() as i32;
        let attr_out = match attribute_lines_exec(parser, inner, count) {
            Some(v) => v,
            None => {
                return None;
            },
        };
        let ghost ns_part = pieces(ns_out@);
        let ghost attr_part = pieces(attr_out@);
        let mut ns_out = ns_out;
        let mut attr_out = attr_out;
        out.append(&mut ns_out);
        assert(pieces(out@) =~= first + ns_part);
        out.append(&mut attr_out);
        assert(pieces(out@) =~= first + ns_part + attr_part);
        let mut closing = indent_text(inner);
        closing.append(">");
        out.push(line_piece(closing));
        proof {
            assert(pieces(out@) =~= first + ns_part + attr_part + seq![line(indent(inner as nat) + ">"@)]);
        }
        Some((out, inner))
    } else if event == END_TAG {
        if level == 0 {
            return None;
        }
        let outer = level - 1;
        let prefix = match parser.prefix_string() {
            Some(p) => p,
            None => {
                return None;
            },
        };
        let name = match parser.name_string() {
            Some(n) => n,
            None => {
                return None;
            },
        };
        let mut t = indent_text(outer);
        t.append("</");
        let pfx = get_namespace_prefix(or_empty_string(prefix));
        t.append(pfx.as_str());
        let n = or_empty_string(name);
        t.append(n.as_str());
        t.append(">");
        out.push(line_piece(t));
        assert(pieces(out@) =~= seq![line(indent(outer as nat) + "</"@ + prefix_text(or_empty(opt_text(prefix))) + or_empty(opt_text(name)) + ">"@)]);
        Some((out, outer))
    } else if event == TEXT {
        let text = match parser.name_string() {
            Some(n) => n,
            None => {
                return None;
            },
        };
        let mut t = indent_text(level);
        let x = or_empty_string(text);
        t.append(x.as_str());
        out.push(line_piece(t));
        assert(pieces(out@) =~= seq![line(indent(level as nat) + or_empty(opt_text(text)))]);
        Some((out, level))
    } else {
        assert(pieces(out@) =~= Seq::<PieceModel>::empty());
        Some((out, level))
    }
}

/// Carries out `namespace_lines`.
fn namespace_lines_exec(parser: &AXmlParser, level: usize, ncb: i32, nc: i32) -> (r: Option<Vec<ManifestPiece>>)
    requires
        parser.wf(),
        level <= MAX_WORDS + 4,
    ensures
        match namespace_lines(parser@, level as nat, ncb as int, nc as int) {
            Some(ps) => r matches Some(v) && pieces(v@) == ps,
            None => r is None,
        },
{
    let ghost target = namespace_lines(parser@, level as nat, ncb as int, nc as int);
    let mut out: Vec<ManifestPiece> = Vec::new();
    let mut i: i32 = ncb;
    assert(pieces(out@) =~= Seq::<PieceModel>::empty());
    while i < nc
        invariant
            parser.wf(),
            level <= MAX_WORDS + 4,
            ncb <= i || i >= nc,
            target == namespace_lines(parser@, level as nat, ncb as int, nc as int),
            target == then(pieces(out@), namespace_lines(parser@, level as nat, i as int, nc as int)),
        decreases nc - i,
    {
        let p = match parser.namespace_string(i, true) {
            Some(p) => p,
            None => {
                return None;
            },
        };
        let u = match parser.namespace_string(i, false) {
            Some(u) => u,
            None => {
                return None;
            },
        };
        let mut t = indent_text(level);
        t.append("xmlns:");
        let ps = or_empty_string(p);
        t.append(ps.as_str());
        t.append("=\"");
        let us = or_empty_string(u);
        t.append(us.as_str());
        t.append("\"");
        let ghost old_out = pieces(out@);
        out.push(line_piece(t));
        assert(pieces(out@) =~= old_out + seq![line(indent(level as nat) + "xmlns:"@ + or_empty(opt_text(p)) + "=\""@ + or_empty(opt_text(u)) + "\""@)]);
        i = i + 1;
    }
    assert(pieces(out@) + Seq::<PieceModel>::empty() =~= pieces(out@));
    Some(out)
}

/// Carries out `attribute_lines` for all the attributes of the current tag.
fn attribute_lines_exec(parser: &AXmlParser, level: usize, count: i32) -> (r: Option<Vec<ManifestPiece>>)
    requires
        parser.wf(),
        parser@.event == START_TAG,
        count == parser@.attributes.len() / 5,
        level <= MAX_WORDS + 4,
    ensures
        match attribute_lines(parser@, level as nat, 0, count as int) {
            Some(ps) => r matches Some(v) && pieces(v@) == ps,
            None => r is None,
        },
{
    let ghost target = attribute_lines(parser@, level as nat, 0, count as int);
    let mut out: Vec<ManifestPiece> = Vec::new();
    let mut j: i32 = 0;
    assert(pieces(out@) =~= Seq::<PieceModel>::empty());
    while j < count
        invariant
            parser.wf(),
            parser@.event == START_TAG,
            count == parser@.attributes.len() / 5,
            level <= MAX_WORDS + 4,
            0 <= j <= count,
            target == attribute_lines(parser@, level as nat, 0, count as int),
            target == then(pieces(out@), attribute_lines(parser@, level as nat, j as int, count as int)),
        decreases count - j,
    {
        proof {
            parser.lemma_attribute_bound();
            assert(5 * j < parser@.attributes.len()) by (nonlinear_arith)
                requires
                    0 <= j < count,
                    count == parser@.attributes.len() / 5,
            ;
            assert(j as int as i32 == j);
        }
        let p = match parser.attribute_string(j, 0) {
            Some(p) => p,
            None => {
                return None;
            },
        };
        let n = match parser.attribute_string(j, 1) {
            Some(n) => n,
            None => {
                return None;
            },
        };
        let v = match parser.try_attribute_value(j) {
            Some(v) => v,
            None => {
                return None;
            },
        };
        let mut head = indent_text(level);
        let pfx = get_namespace_prefix(or_empty_string(p));
        head.append(pfx.as_str());
        let ns = or_empty_string(n);
        head.append(ns.as_str());
        head.append("=\"");
        let ghost old_out = pieces(out@);
        let ghost h = head@;
        match v {
            AttributeValue::Text(t) => {
                let mut l = head;
                l.append(t.as_str());
                l.append("\"");
                out.push(line_piece(l));
            },
            AttributeValue::Complex { data, unit } => {
                out.push(ManifestPiece::Text(head));
                out.push(ManifestPiece::Complex(data));
                let mut tail = unit;
                tail.append("\"");
                out.push(line_piece(tail));
            },
        }
        assert(pieces(out@) =~= old_out + attribute_pieces(h, v@));
        j = j + 1;
    }
    assert(pieces(out@) + Seq::<PieceModel>::empty() =~= pieces(out@));
    Some(out)
}

} // verus!
