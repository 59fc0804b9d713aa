use vstd::prelude::*;
use crate::xml::constants::{
    TYPE_REFERENCE, TYPE_ATTRIBUTE, TYPE_STRING, TYPE_FLOAT, TYPE_DIMENSION, TYPE_FRACTION,
    TYPE_FIRST_INT, TYPE_INT_HEX, TYPE_INT_BOOLEAN, TYPE_FIRST_COLOR_INT, TYPE_LAST_COLOR_INT,
    TYPE_LAST_INT, COMPLEX_UNIT_MASK, START_DOCUMENT, END_DOCUMENT, START_TAG, END_TAG, TEXT,
    spec_dimension_unit, spec_fraction_unit, dimension_unit, fraction_unit,
};
use crate::xml::namespace_stack::{
    NamespaceStack, Scopes, NS_LIMIT, size, pushed, popped, shallowed, flatten, lookup,
    accumulated, entry_at,
};
use crate::xml::reader::{IntReader, ReaderModel, MAX_INPUT_BYTES, le_words};
use crate::text::opt_text;
use crate::numbers::{decimal, upper_hex, hex8, binary, push_decimal, push_upper_hex, push_hex8, push_binary};
use crate::xml::str_block::{
    StringBlock, StringBlockModel, block_read, read_words, string_at, next_word, next_words,
};

verus! {

pub const ATTRIBUTE_IX_NAMESPACE_URI: i32 = 0;
pub const ATTRIBUTE_IX_NAME: i32 = 1;
pub const ATTRIBUTE_IX_VALUE_STRING: i32 = 2;
pub const ATTRIBUTE_IX_VALUE_TYPE: i32 = 3;
pub const ATTRIBUTE_IX_VALUE_DATA: i32 = 4;
pub const ATTRIBUTE_LENGHT: i32 = 5;

pub const CHUNK_AXML_FILE: i32 = 0x00080003;
pub const CHUNK_RESOURCEIDS: i32 = 0x00080180;
pub const CHUNK_XML_FIRST: i32 = 0x00100100;
pub const CHUNK_XML_START_NAMESPACE: i32 = 0x00100100;
pub const CHUNK_XML_END_NAMESPACE: i32 = 0x00100101;
pub const CHUNK_XML_START_TAG: i32 = 0x00100102;
pub const CHUNK_XML_END_TAG: i32 = 0x00100103;
pub const CHUNK_XML_TEXT: i32 = 0x00100104;
pub const CHUNK_XML_LAST: i32 = 0x00100104;

/// The most words a document may have (a quarter of the largest input).
pub const MAX_WORDS: usize = 0x2000_0000;

/// Everything a parser holds.
pub struct ParserModel {
    pub reader: Option<ReaderModel>,
    pub operational: bool,
    pub strings: Option<StringBlockModel>,
    pub resource_ids: Option<Seq<i32>>,
    pub namespaces: Scopes,
    pub decrease_depth: bool,
    pub event: i32,
    pub line_number: i32,
    pub name: i32,
    pub namespace_uri: i32,
    pub attributes: Seq<i32>,
    pub id_attribute: i32,
    pub class_attribute: i32,
    pub style_attribute: i32,
}

/// The words left to read.
pub open spec fn remaining(r: ReaderModel) -> nat {
    if r.pos < r.data.len() {
        (r.data.len() - r.pos) as nat
    } else {
        0
    }
}

/// `s` with its reader moved to `pos`.
pub open spec fn at_pos(s: ParserModel, pos: int) -> ParserModel {
    ParserModel { reader: Some(ReaderModel { data: s.reader.unwrap().data, pos: pos as nat }), ..s }
}

/// The attribute words as the parser keeps them: the value type (the fourth
/// word of each group of five) keeps only its top byte.
pub open spec fn with_value_types(a: Seq<i32>) -> Seq<i32> {
    Seq::new(a.len(), |k: int| if k % 5 == 3 { a[k] >> 24 } else { a[k] })
}

/// The document header and string pool read at the reader's position;
/// `None` where the header is not that of a binary XML document, the pool
/// cannot be read, or the namespace stack would pass its bound.
pub open spec fn header(s: ParserModel) -> Option<ParserModel> {
    match s.reader {
        None => None,
        Some(r) => {
            let d = r.data;
            let p = r.pos as int;
            if p >= d.len() || d[p] != CHUNK_AXML_FILE || size(s.namespaces) + 2 > NS_LIMIT {
                None
            } else {
                match block_read(ReaderModel { data: d, pos: (p + 2) as nat }) {
                    None => None,
                    Some((sb, q)) => Some(
                        ParserModel {
                            strings: sb,
                            namespaces: s.namespaces.push(Seq::empty()),
                            operational: true,
                            ..at_pos(s, q)
                        },
                    ),
                }
            }
        }
    }
}

/// What reading one chunk leads to.
pub enum ChunkStep {
    /// The chunk cannot be read.
    Fault,
    /// The chunk gave no event; reading goes on from this state.
    More(ParserModel),
    /// The chunk gave an event; this is the parser's new state.
    Done(ParserModel),
}

/// Reading one chunk (`ev` is the previous event): a namespace chunk changes
/// the namespace stack and a resource id chunk is kept (reading goes on); a
/// tag or text chunk sets the event and what belongs to it. `Fault` where the
/// chunk cannot be read: a word past the end, a chunk type out of range, a bad
/// resource id chunk size, or a namespace stack past its bound.
pub open spec fn chunk_step(s: ParserModel, ev: i32) -> ChunkStep {
    match s.reader {
        None => ChunkStep::Fault,
        Some(r) => {
            let d = r.data;
            let p = r.pos as int;
            if ev == END_TAG && s.namespaces.len() == 1 && s.namespaces.last().len() == 0 {
                ChunkStep::Done(ParserModel { event: END_DOCUMENT, ..s })
            } else if ev != START_DOCUMENT && p >= d.len() {
                ChunkStep::Fault
            } else {
                let ct = if ev == START_DOCUMENT { CHUNK_XML_START_TAG } else { d[p] };
                let p1 = if ev == START_DOCUMENT { p } else { p + 1 };
                if ct == CHUNK_RESOURCEIDS {
                    if p1 >= d.len() {
                        ChunkStep::Fault
                    } else {
                        let cs = d[p1];
                        if cs < 8 || cs % 4 != 0 {
                            ChunkStep::Fault
                        } else {
                            match read_words(d, p1 + 1, cs / 4 - 2) {
                                None => ChunkStep::Fault,
                                Some((ids, q)) => ChunkStep::More(
                                    ParserModel { resource_ids: Some(ids), ..at_pos(s, q) },
                                ),
                            }
                        }
                    }
                } else if ct < CHUNK_XML_FIRST || ct > CHUNK_XML_LAST {
                    ChunkStep::Fault
                } else if ct == CHUNK_XML_START_TAG && ev == -1 {
                    ChunkStep::Done(ParserModel { event: START_DOCUMENT, ..at_pos(s, p1) })
                } else if p1 + 1 >= d.len() {
                    ChunkStep::Fault
                } else {
                    let line = d[p1 + 1];
                    let p2 = p1 + 3;
                    if ct == CHUNK_XML_START_NAMESPACE {
                        if p2 + 1 >= d.len() || size(s.namespaces) + 4 > NS_LIMIT {
                            ChunkStep::Fault
                        } else {
                            ChunkStep::More(
                                ParserModel {
                                    namespaces: pushed(s.namespaces, d[p2], d[p2 + 1]),
                                    ..at_pos(s, p2 + 2)
                                },
                            )
                        }
                    } else if ct == CHUNK_XML_END_NAMESPACE {
                        ChunkStep::More(
                            ParserModel { namespaces: popped(s.namespaces), ..at_pos(s, p2 + 2) },
                        )
                    } else if ct == CHUNK_XML_START_TAG {
                        if p2 + 4 >= d.len() || size(s.namespaces) + 2 > NS_LIMIT {
                            ChunkStep::Fault
                        } else {
                            let ac = d[p2 + 3];
                            let class = d[p2 + 4];
                            match read_words(d, p2 + 5, ((ac & 0xFFFF) * 5) as int) {
                                None => ChunkStep::Fault,
                                Some((attrs, q)) => ChunkStep::Done(
                                    ParserModel {
                                        line_number: line,
                                        namespace_uri: d[p2],
                                        name: d[p2 + 1],
                                        id_attribute: ac >> 15,
                                        class_attribute: class & 0xFFFE,
                                        style_attribute: class >> 15,
                                        attributes: with_value_types(attrs),
                                        namespaces: s.namespaces.push(Seq::empty()),
                                        event: START_TAG,
                                        ..at_pos(s, q)
                                    },
                                ),
                            }
                        }
                    } else if ct == CHUNK_XML_END_TAG {
                        if p2 + 1 >= d.len() {
                            ChunkStep::Fault
                        } else {
                            ChunkStep::Done(
                                ParserModel {
                                    line_number: line,
                                    namespace_uri: d[p2],
                                    name: d[p2 + 1],
                                    event: END_TAG,
                                    decrease_depth: true,
                                    ..at_pos(s, p2 + 2)
                                },
                            )
                        }
                    } else {
                        if p2 >= d.len() {
                            ChunkStep::Fault
                        } else {
                            ChunkStep::Done(
                                ParserModel {
                                    line_number: line,
                                    name: d[p2],
                                    event: TEXT,
                                    ..at_pos(s, p2 + 3)
                                },
                            )
                        }
                    }
                }
            }
        }
    }
}

/// A chunk that gives no event is read from before the end and moves past it.
pub proof fn lemma_chunk_progress(s: ParserModel, ev: i32)
    ensures
        chunk_step(s, ev) matches ChunkStep::More(t) ==> s.reader is Some && t.reader is Some
            && remaining(t.reader.unwrap()) < remaining(s.reader.unwrap()),
{
}

/// Reading chunks until one gives an event (`ev` is the previous event);
/// `None` where a chunk cannot be read.
pub open spec fn scan(s: ParserModel, ev: i32) -> Option<ParserModel>
    decreases (match s.reader {
        Some(r) => remaining(r),
        None => 0,
    }),
{
    match chunk_step(s, ev) {
        ChunkStep::Fault => None,
        ChunkStep::Done(t) => Some(t),
        ChunkStep::More(t) => {
            proof {
                lemma_chunk_progress(s, ev);
            }
            scan(t, ev)
        },
    }
}

/// A scan that ends in an event other than the end of the document has read
/// a word: it started before the end of the words and moved forward.
pub proof fn lemma_scan_progress(s: ParserModel, ev: i32)
    ensures
        scan(s, ev) matches Some(t) ==> t.reader is Some && s.reader is Some
            && t.reader.unwrap().data == s.reader.unwrap().data,
        scan(s, ev) matches Some(t) ==> t.event != END_DOCUMENT ==> {
            &&& s.reader is Some
            &&& t.reader is Some
            &&& t.reader.unwrap().data == s.reader.unwrap().data
            &&& s.reader.unwrap().pos < s.reader.unwrap().data.len()
            &&& s.reader.unwrap().pos < t.reader.unwrap().pos
        },
    decreases (match s.reader {
        Some(r) => remaining(r),
        None => 0,
    }),
{
    if let ChunkStep::More(u) = chunk_step(s, ev) {
        lemma_chunk_progress(s, ev);
        lemma_scan_progress(u, ev);
    }
}

/// `s` with the scope of the tag that just ended closed, when one did.
pub open spec fn settled(s: ParserModel) -> ParserModel {
    if s.decrease_depth {
        ParserModel { decrease_depth: false, namespaces: shallowed(s.namespaces), ..s }
    } else {
        s
    }
}

/// `s` with the event and what belongs to it cleared.
pub open spec fn cleared(s: ParserModel) -> ParserModel {
    ParserModel {
        event: -1i32,
        line_number: -1i32,
        name: -1i32,
        namespace_uri: -1i32,
        attributes: Seq::empty(),
        id_attribute: -1i32,
        class_attribute: -1i32,
        style_attribute: -1i32,
        ..s
    }
}

/// The parser after it advances to the next event; `None` where it cannot
/// (no document opened, or `header` or `scan` fails).
pub open spec fn next_state(s: ParserModel) -> Option<ParserModel> {
    if s.reader is None {
        None
    } else {
        let s1 = if s.strings is None { header(s) } else { Some(s) };
        match s1 {
            None => None,
            Some(t) => if t.event == END_DOCUMENT {
                Some(t)
            } else {
                scan(settled(cleared(t)), t.event)
            },
        }
    }
}


/// The string at `index` of the document's pool, as `string_at` says;
/// `Some(None)` when there is no pool.
pub open spec fn pool_string(s: ParserModel, index: i32) -> Option<Option<Seq<char>>> {
    match s.strings {
        None => Some(None),
        Some(sb) => string_at(sb, index),
    }
}

/// The string index of the prefix of the current tag's namespace.
pub open spec fn tag_prefix_index(s: ParserModel) -> i32 {
    lookup(flatten(s.namespaces), s.namespace_uri, false)
}

/// Whether `index` names an attribute of the current start tag.
pub open spec fn is_attribute(s: ParserModel, index: i32) -> bool {
    s.event == START_TAG && 0 <= index && 5 * index < s.attributes.len()
}

/// Word `field` of attribute `index`.
pub open spec fn attribute_word(s: ParserModel, index: i32, field: int) -> i32 {
    s.attributes[5 * index + field]
}

/// The string index of the prefix of the namespace of attribute `index`.
pub open spec fn attribute_prefix_index(s: ParserModel, index: i32) -> i32 {
    lookup(flatten(s.namespaces), attribute_word(s, index, 0), false)
}

/// An attribute value as text, or as a complex value (a dimension or a
/// fraction) made of its data word and the name of its unit.
pub enum ValueModel {
    Text(Seq<char>),
    Complex(i32, Seq<char>),
}

/// `"android:"` for a resource id of the system package, nothing otherwise.
pub open spec fn package(id: i32) -> Seq<char> {
    if id >> 24 == 1 {
        "android:"@
    } else {
        Seq::empty()
    }
}

/// The value of type `tp` with data `data`, for every type but strings;
/// `None` for a dimension or fraction whose unit index has no name.
pub open spec fn typed_value(tp: i32, data: i32) -> Option<ValueModel> {
    let unit = (data & COMPLEX_UNIT_MASK) as int;
    if tp == TYPE_ATTRIBUTE {
        Some(ValueModel::Text("?"@ + package(data) + upper_hex(data)))
    } else if tp == TYPE_REFERENCE {
        Some(ValueModel::Text("@"@ + package(data) + upper_hex(data)))
    } else if tp == TYPE_FLOAT {
        Some(ValueModel::Text(decimal(data as int)))
    } else if tp == TYPE_INT_HEX {
        Some(ValueModel::Text("0x"@ + hex8(data)))
    } else if tp == TYPE_INT_BOOLEAN {
        Some(ValueModel::Text(if data != 0 { "true"@ } else { "false"@ }))
    } else if tp == TYPE_DIMENSION {
        if unit < 8 { Some(ValueModel::Complex(data, spec_dimension_unit(unit))) } else { None }
    } else if tp == TYPE_FRACTION {
        if unit < 8 { Some(ValueModel::Complex(data, spec_fraction_unit(unit))) } else { None }
    } else if TYPE_FIRST_COLOR_INT <= tp <= TYPE_LAST_COLOR_INT {
        Some(ValueModel::Text("0x"@ + hex8(data)))
    } else if TYPE_FIRST_INT <= tp <= TYPE_LAST_INT {
        Some(ValueModel::Text(decimal(data as int)))
    } else {
        Some(ValueModel::Text("<0x"@ + upper_hex(data) + ", type 0x"@ + binary(tp) + ">"@))
    }
}

/// The value of attribute `index`: a string value is looked up in the pool
/// (empty when it is missing); `None` where the lookup or `typed_value` fails.
pub open spec fn attribute_value(s: ParserModel, index: i32) -> Option<ValueModel> {
    let tp = attribute_word(s, index, 3);
    if tp == TYPE_STRING {
        match pool_string(s, attribute_word(s, index, 2)) {
            Some(o) => Some(ValueModel::Text(
                match o {
                    Some(t) => t,
                    None => Seq::empty(),
                },
            )),
            None => None,
        }
    } else {
        typed_value(tp, attribute_word(s, index, 4))
    }
}

/// An attribute value: text, or a dimension or fraction given by its data
/// word (whose number is a floating-point value) and the name of its unit.
pub enum AttributeValue {
    Text(String),
    Complex { data: i32, unit: String },
}

impl View for AttributeValue {
    type V = ValueModel;

    open spec fn view(&self) -> ValueModel {
        match self {
            AttributeValue::Text(t) => ValueModel::Text(t@),
            AttributeValue::Complex { data, unit } => ValueModel::Complex(*data, unit@),
        }
    }
}

/// `"android:"` for a resource id of the system package, `""` otherwise.
pub fn get_package(id: i32) -> (p: &'static str)
    ensures
        p@ == package(id),
{
    if id >> 24 == 1 {
        "android:"
    } else {
        proof {
            reveal_strlit("");
        }
        ""
    }
}

/// Carries out `typed_value`.
fn format_typed_value(tp: i32, data: i32) -> (v: Option<AttributeValue>)
    ensures
        match typed_value(tp, data) {
            Some(m) => v matches Some(x) && x@ == m,
            None => v is None,
        },
{
    let unit = (data & COMPLEX_UNIT_MASK) as usize;
    assert(0 <= data & 15 <= 15) by (bit_vector);
    let mut t = String::new();
    if tp == TYPE_ATTRIBUTE {
        t.append("?");
        t.append(get_package(data));
        push_upper_hex(&mut t, data);
    } else if tp == TYPE_REFERENCE {
        t.append("@");
        t.append(get_package(data));
        push_upper_hex(&mut t, data);
    } else if tp == TYPE_FLOAT {
        push_decimal(&mut t, data);
    } else if tp == TYPE_INT_HEX {
        t.append("0x");
        push_hex8(&mut t, data);
    } else if tp == TYPE_INT_BOOLEAN {
        if data != 0 {
            t.append("true");
        } else {
            t.append("false");
        }
    } else if tp == TYPE_DIMENSION {
        if unit < 8 {
            let mut u = String::new();
            u.append(dimension_unit(unit));
            return Some(AttributeValue::Complex { data, unit: u });
        } else {
            return None;
        }
    } else if tp == TYPE_FRACTION {
        if unit < 8 {
            let mut u = String::new();
            u.append(fraction_unit(unit));
            return Some(AttributeValue::Complex { data, unit: u });
        } else {
            return None;
        }
    } else if TYPE_FIRST_COLOR_INT <= tp && tp <= TYPE_LAST_COLOR_INT {
        t.append("0x");
        push_hex8(&mut t, data);
    } else if TYPE_FIRST_INT <= tp && tp <= TYPE_LAST_INT {
        push_decimal(&mut t, data);
    } else {
        t.append("<0x");
        push_upper_hex(&mut t, data);
        t.append(", type 0x");
        push_binary(&mut t, tp);
        t.append(">");
    }
    Some(AttributeValue::Text(t))
}

/// Advancing to an event other than the end of the document reads a word:
/// the parser was before the end of its words and moves forward.
pub proof fn lemma_next_progress(s: ParserModel)
    ensures
        next_state(s) matches Some(t) ==> t.reader is Some && s.reader is Some
            && t.reader.unwrap().data == s.reader.unwrap().data,
        next_state(s) matches Some(t) ==> t.event != END_DOCUMENT ==> {
            &&& s.reader is Some
            &&& t.reader is Some
            &&& t.reader.unwrap().data == s.reader.unwrap().data
            &&& s.reader.unwrap().pos < s.reader.unwrap().data.len()
            &&& s.reader.unwrap().pos < t.reader.unwrap().pos
        },
{
    if s.reader is Some {
        let s1 = if s.strings is None { header(s) } else { Some(s) };
        if let Some(u) = s1 {
            if u.event != END_DOCUMENT {
                lemma_scan_progress(settled(cleared(u)), u.event);
            }
        }
    }
}

/// Once the document has ended, advancing leaves the parser as it is: every
/// further event is the end of the document.
pub proof fn law_end_is_final(s: ParserModel)
    requires
        s.reader is Some,
        s.strings is Some,
        s.event == END_DOCUMENT,
    ensures
        next_state(s) == Some(s),
{
}

/// A start tag opens a namespace scope and an end tag has the next advance
/// close it; the outermost scope, opened with the document, stays.
pub proof fn law_tags_scope(s: ParserModel, ev: i32)
    ensures
        chunk_step(s, ev) matches ChunkStep::Done(t) ==> t.event == START_TAG ==> t.namespaces
            == s.namespaces.push(Seq::empty()),
        chunk_step(s, ev) matches ChunkStep::Done(t) ==> t.event == END_TAG ==> t.decrease_depth
            && settled(t).namespaces == shallowed(s.namespaces),
{
}

/// A pull parser over the chunks of a binary XML document.
pub struct AXmlParser {
    reader: Option<IntReader>,
    operational: bool,
    strings: Option<StringBlock>,
    resource_ids: Option<Vec<i32>>,
    namespaces: NamespaceStack,
    decrease_depth: bool,
    event: i32,
    line_number: i32,
    name: i32,
    namespace_uri: i32,
    attributes: Vec<i32>,
    id_attribute: i32,
    class_attribute: i32,
    style_attribute: i32,
}

impl View for AXmlParser {
    type V = ParserModel;

    closed spec fn view(&self) -> ParserModel {
        self.model_with(
            match self.reader {
                Some(r) => Some(r@),
                None => None,
            },
        )
    }
}

impl AXmlParser {
    /// The parser's state, with `reader` in place of its reader.
    closed spec fn model_with(&self, reader: Option<ReaderModel>) -> ParserModel {
        ParserModel {
            reader,
            operational: self.operational,
            strings: match self.strings {
                Some(b) => Some(b@),
                None => None,
            },
            resource_ids: match self.resource_ids {
                Some(v) => Some(v@),
                None => None,
            },
            namespaces: self.namespaces@,
            decrease_depth: self.decrease_depth,
            event: self.event,
            line_number: self.line_number,
            name: self.name,
            namespace_uri: self.namespace_uri,
            attributes: self.attributes@,
            id_attribute: self.id_attribute,
            class_attribute: self.class_attribute,
            style_attribute: self.style_attribute,
        }
    }

    /// Attribute words come in groups of five, at most 0xFFFF groups.
    closed spec fn attrs_ok(a: Seq<i32>) -> bool {
        a.len() <= 5 * 0xFFFF && a.len() % 5 == 0
    }

    /// The document fits the word bound, and the position stays within three
    /// words past its end.
    closed spec fn reader_ok(r: ReaderModel) -> bool {
        r.data.len() <= MAX_WORDS && r.pos <= r.data.len() + 3
    }

    /// The parser's internal consistency, which every operation keeps.
    pub closed spec fn wf(&self) -> bool {
        &&& self.namespaces.wf()
        &&& match self.reader {
            Some(r) => Self::reader_ok(r@),
            None => true,
        }
        &&& Self::attrs_ok(self.attributes@)
    }

    /// The position of an opened parser stays within three words past the end.
    pub(crate) proof fn lemma_reader_bound(&self)
        requires
            self.wf(),
            self@.reader is Some,
        ensures
            self@.reader.unwrap().pos <= MAX_WORDS + 3,
            self@.reader.unwrap().pos <= self@.reader.unwrap().data.len() + 3,
    {
    }

    /// The attribute words come in groups of five, at most 0xFFFF of them.
    pub(crate) proof fn lemma_attribute_bound(&self)
        requires
            self.wf(),
        ensures
            self@.attributes.len() <= 5 * 0xFFFF,
            self@.attributes.len() % 5 == 0,
            self@.namespaces.len() <= NS_LIMIT / 2,
    {
        self.namespaces.lemma_size_bound();
    }

    /// A parser with no document.
    pub fn new() -> (parser: AXmlParser)
        ensures
            parser.wf(),
            parser@.reader is None,
            parser@.strings is None,
            parser@.resource_ids is None,
            parser@.namespaces == Seq::<Seq<(i32, i32)>>::empty(),
            !parser@.operational,
            !parser@.decrease_depth,
            parser@.event == -1,
            parser@.line_number == -1,
            parser@.name == -1,
            parser@.namespace_uri == -1,
            parser@.attributes == Seq::<i32>::empty(),
            parser@.id_attribute == -1,
            parser@.class_attribute == -1,
            parser@.style_attribute == -1,
    {
        AXmlParser {
            reader: None,
            operational: false,
            strings: None,
            resource_ids: None,
            namespaces: NamespaceStack::new(),
            decrease_depth: false,
            event: -1,
            line_number: -1,
            name: -1,
            namespace_uri: -1,
            attributes: Vec::new(),
            id_attribute: -1,
            class_attribute: -1,
            style_attribute: -1,
        }
    }

    /// Opens the document `file`: its bytes, read as little-endian words.
    pub fn open(&mut self, file: &[u8])
        requires
            old(self).wf(),
            file@.len() % 4 == 0,
            file@.len() <= MAX_INPUT_BYTES,
        ensures
            final(self).wf(),
            final(self)@ == (ParserModel {
                reader: Some(ReaderModel { data: le_words(file@), pos: 0 }),
                ..old(self)@
            }),
    {
        let reader = IntReader::new(file);
        self.reader = Some(reader);
    }

    /// Advances to the next event and returns it.
    pub fn next(&mut self) -> (event: i32)
        requires
            old(self).wf(),
            next_state(old(self)@) is Some,
        ensures
            final(self).wf(),
            final(self)@ == next_state(old(self)@).unwrap(),
            event == final(self)@.event,
    {
        self.do_next();
        self.event
    }

    /// Advances to the next event and returns it; `None` where `next_state` is.
    pub fn try_next(&mut self) -> (event: Option<i32>)
        requires
            old(self).wf(),
        ensures
            event is Some <==> next_state(old(self)@) is Some,
            event is Some ==> final(self).wf() && final(self)@ == next_state(old(self)@).unwrap()
                && event == Some(final(self)@.event),
    {
        if self.do_next() {
            Some(self.event)
        } else {
            None
        }
    }

    /// Advances to the next event as `next_state` says; false where it cannot.
    #[verifier::rlimit(60)]
    fn do_next(&mut self) -> (ok: bool)
        requires
            old(self).wf(),
        ensures
            ok == (next_state(old(self)@) is Some),
            ok ==> final(self).wf() && final(self)@ == next_state(old(self)@).unwrap(),
    {
        let ghost s0 = self@;
        let mut reader = match self.reader.take() {
            Some(r) => r,
            None => {
                return false;
            },
        };
        assert(self.model_with(Some(reader@)) == s0);
        if self.strings.is_none() {
            let ghost s = self.model_with(Some(reader@));
            let tp = match next_word(&mut reader) {
                Some(w) => w,
                None => {
                    return false;
                },
            };
            if tp != CHUNK_AXML_FILE {
                return false;
            }
            if self.namespaces.get_depth() > 0x1FFF_FFFF - self.namespaces.declaration_count() {
                proof {
                    self.namespaces.lemma_size_bound();
                }
                return false;
            }
            proof {
                self.namespaces.lemma_size_bound();
            }
            reader.skip_int();
            let block = match StringBlock::try_read(&mut reader) {
                Some(b) => b,
                None => {
                    return false;
                },
            };
            self.strings = block;
            self.namespaces.increase_depth();
            self.operational = true;
            assert(header(s) == Some(self.model_with(Some(reader@))));
        }
        if self.event == END_DOCUMENT {
            self.reader = Some(reader);
            return true;
        }
        let event = self.event;
        self.event = -1;
        self.line_number = -1;
        self.name = -1;
        self.namespace_uri = -1;
        self.attributes = Vec::new();
        self.id_attribute = -1;
        self.class_attribute = -1;
        self.style_attribute = -1;
        if self.decrease_depth {
            self.decrease_depth = false;
            self.namespaces.decrease_depth();
        }
        let ghost target = next_state(s0);
        assert(target == scan(self.model_with(Some(reader@)), event));
        loop
            invariant_except_break
                target == scan(self.model_with(Some(reader@)), event),
            invariant
                self.namespaces.wf(),
                Self::reader_ok(reader@),
                Self::attrs_ok(self.attributes@),
                target == next_state(old(self)@),
            ensures
                target == Some(self.model_with(Some(reader@))),
                self.namespaces.wf(),
                Self::reader_ok(reader@),
                Self::attrs_ok(self.attributes@),
            decreases remaining(reader@),
        {
            let ghost cur = self.model_with(Some(reader@));
            proof {
                lemma_chunk_progress(cur, event);
            }
            match self.read_chunk(&mut reader, event) {
                Chunk::Fault => {
                    assert(scan(cur, event) is None);
                    return false;
                },
                Chunk::Done => {
                    assert(scan(cur, event) == Some(self.model_with(Some(reader@))));
                    break ;
                },
                Chunk::More => {
                    assert(scan(cur, event) == scan(self.model_with(Some(reader@)), event));
                },
            }
        }
        self.reader = Some(reader);
        true
    }

    /// Reads one chunk from `reader`, as `chunk_step` says.
    #[verifier::rlimit(40)]
    fn read_chunk(&mut self, reader: &mut IntReader, event: i32) -> (c: Chunk)
        requires
            old(self).namespaces.wf(),
            Self::reader_ok(old(reader)@),
            Self::attrs_ok(old(self).attributes@),
        ensures
            match chunk_step(old(self).model_with(Some(old(reader)@)), event) {
                ChunkStep::Fault => c == Chunk::Fault,
                ChunkStep::More(t) => c == Chunk::More && t == final(self).model_with(Some(final(reader)@)),
                ChunkStep::Done(t) => c == Chunk::Done && t == final(self).model_with(Some(final(reader)@)),
            },
            c != Chunk::Fault ==> {
                &&& final(self).namespaces.wf()
                &&& Self::reader_ok(final(reader)@)
                &&& Self::attrs_ok(final(self).attributes@)
            },
    {
        let ghost s = self.model_with(Some(reader@));
        if event == END_TAG && self.namespaces.get_depth() == 1
            && self.namespaces.get_current_count() == 0 {
            self.event = END_DOCUMENT;
            return Chunk::Done;
        }
        let chunk_type = if event == START_DOCUMENT {
            CHUNK_XML_START_TAG
        } else {
            match next_word(reader) {
                Some(w) => w,
                None => {
                    return Chunk::Fault;
                },
            }
        };
        if chunk_type == CHUNK_RESOURCEIDS {
            let chunk_size = match next_word(reader) {
                Some(w) => w,
                None => {
                    return Chunk::Fault;
                },
            };
            if chunk_size < 8 || (chunk_size as u32) % 4 != 0 {
                return Chunk::Fault;
            }
            let ids = match next_words(reader, chunk_size / 4 - 2) {
                Some(v) => v,
                None => {
                    return Chunk::Fault;
                },
            };
            self.resource_ids = Some(ids);
            return Chunk::More;
        }
        if chunk_type < CHUNK_XML_FIRST || chunk_type > CHUNK_XML_LAST {
            return Chunk::Fault;
        }
        if chunk_type == CHUNK_XML_START_TAG && event == -1 {
            self.event = START_DOCUMENT;
            return Chunk::Done;
        }
        reader.skip_int();
        let line_number = match next_word(reader) {
            Some(w) => w,
            None => {
                return Chunk::Fault;
            },
        };
        reader.skip_int();
        if chunk_type == CHUNK_XML_START_NAMESPACE || chunk_type == CHUNK_XML_END_NAMESPACE {
            if chunk_type == CHUNK_XML_START_NAMESPACE {
                let prefix = match next_word(reader) {
                    Some(w) => w,
                    None => {
                        return Chunk::Fault;
                    },
                };
                let uri = match next_word(reader) {
                    Some(w) => w,
                    None => {
                        return Chunk::Fault;
                    },
                };
                proof {
                    self.namespaces.lemma_size_bound();
                }
                if self.namespaces.get_depth() > 0x1FFF_FFFE - self.namespaces.declaration_count() {
                    return Chunk::Fault;
                }
                self.namespaces.push(prefix, uri);
            } else {
                reader.skip_int();
                reader.skip_int();
                self.namespaces.pop();
            }
            return Chunk::More;
        }
        if chunk_type == CHUNK_XML_START_TAG {
            let namespace_uri = match next_word(reader) {
                Some(w) => w,
                None => {
                    return Chunk::Fault;
                },
            };
            let name = match next_word(reader) {
                Some(w) => w,
                None => {
                    return Chunk::Fault;
                },
            };
            reader.skip_int();
            let ac0 = match next_word(reader) {
                Some(w) => w,
                None => {
                    return Chunk::Fault;
                },
            };
            let class0 = match next_word(reader) {
                Some(w) => w,
                None => {
                    return Chunk::Fault;
                },
            };
            proof {
                self.namespaces.lemma_size_bound();
            }
            if self.namespaces.get_depth() > 0x1FFF_FFFF - self.namespaces.declaration_count() {
                return Chunk::Fault;
            }
            let mut ac = ac0;
            let id_attribute = ac >> 15;
            ac = ac & 0xFFFF;
            assert(0 <= ac0 & 0xFFFF <= 0xFFFF) by (bit_vector);
            let mut attributes = match next_words(reader, ac * ATTRIBUTE_LENGHT) {
                Some(v) => v,
                None => {
                    return Chunk::Fault;
                },
            };
            shift_value_types(&mut attributes);
            self.line_number = line_number;
            self.namespace_uri = namespace_uri;
            self.name = name;
            self.id_attribute = id_attribute;
            self.class_attribute = class0;
            self.style_attribute = self.class_attribute >> 15;
            self.class_attribute = self.class_attribute & 0xFFFE;
            self.attributes = attributes;
            self.namespaces.increase_depth();
            self.event = START_TAG;
            return Chunk::Done;
        }
        if chunk_type == CHUNK_XML_END_TAG {
            let namespace_uri = match next_word(reader) {
                Some(w) => w,
                None => {
                    return Chunk::Fault;
                },
            };
            let name = match next_word(reader) {
                Some(w) => w,
                None => {
                    return Chunk::Fault;
                },
            };
            self.line_number = line_number;
            self.namespace_uri = namespace_uri;
            self.name = name;
            self.event = END_TAG;
            self.decrease_depth = true;
            return Chunk::Done;
        }
        let name = match next_word(reader) {
            Some(w) => w,
            None => {
                return Chunk::Fault;
            },
        };
        self.line_number = line_number;
        self.name = name;
        reader.skip_int();
        reader.skip_int();
        self.event = TEXT;
        Chunk::Done
    }
}

/// What reading one chunk came to.
#[derive(PartialEq, Eq, Structural)]
enum Chunk {
    Fault,
    More,
    Done,
}

impl AXmlParser {
    /// `pool_string` carried out.
    fn pool_string(&self, index: i32) -> (t: Option<Option<String>>)
        ensures
            match pool_string(self@, index) {
                Some(Some(cs)) => t matches Some(Some(x)) && x@ == cs,
                Some(None) => t == Some(None::<String>),
                None => t is None,
            },
    {
        match &self.strings {
            Some(data) => data.decode_string(index),
            None => Some(None),
        }
    }

    /// The prefix of the current tag's namespace, from the string pool.
    pub fn get_prefix(&mut self) -> (p: Option<String>)
        requires
            old(self).wf(),
            pool_string(old(self)@, tag_prefix_index(old(self)@)) is Some,
        ensures
            *final(self) == *old(self),
            opt_text(p) == pool_string(old(self)@, tag_prefix_index(old(self)@)).unwrap(),
    {
        self.prefix_string().unwrap()
    }

    /// `pool_string` of the current tag's namespace prefix.
    pub fn prefix_string(&self) -> (p: Option<Option<String>>)
        requires
            self.wf(),
        ensures
            match pool_string(self@, tag_prefix_index(self@)) {
                Some(o) => p matches Some(x) && opt_text(x) == o,
                None => p is None,
            },
    {
        let prefix = self.namespaces.find_prefix(self.namespace_uri);
        self.pool_string(prefix)
    }

    /// The name of the current start or end tag; `None` at other events.
    pub fn get_name(&mut self) -> (n: Option<String>)
        requires
            old(self).wf(),
            old(self)@.event == START_TAG || old(self)@.event == END_TAG ==> pool_string(
                old(self)@,
                old(self)@.name,
            ) is Some,
        ensures
            *final(self) == *old(self),
            opt_text(n) == (if old(self)@.event != START_TAG && old(self)@.event != END_TAG {
                None
            } else {
                pool_string(old(self)@, old(self)@.name).unwrap()
            }),
    {
        if self.event != START_TAG && self.event != END_TAG {
            None
        } else {
            self.pool_string(self.name).unwrap()
        }
    }

    /// `pool_string` of the current name (of a tag) or text.
    pub fn name_string(&self) -> (n: Option<Option<String>>)
        requires
            self.wf(),
        ensures
            match pool_string(self@, self@.name) {
                Some(o) => n matches Some(x) && opt_text(x) == o,
                None => n is None,
            },
    {
        self.pool_string(self.name)
    }

    /// The current event.
    pub(crate) fn event(&self) -> (e: i32)
        ensures
            e == self@.event,
    {
        self.event
    }

    /// The depth of the current element: the open namespace scopes less one.
    pub fn get_depth(&self) -> (d: i32)
        requires
            self.wf(),
        ensures
            d == self@.namespaces.len() - 1,
    {
        self.namespaces.get_depth() - 1
    }

    /// The current text; `None` at other events.
    pub fn get_text(&mut self) -> (t: Option<String>)
        requires
            old(self).wf(),
            old(self)@.event == TEXT ==> pool_string(old(self)@, old(self)@.name) is Some,
        ensures
            *final(self) == *old(self),
            opt_text(t) == (if old(self)@.event != TEXT {
                None
            } else {
                pool_string(old(self)@, old(self)@.name).unwrap()
            }),
    {
        if self.event != TEXT {
            None
        } else {
            self.pool_string(self.name).unwrap()
        }
    }

    /// The number of namespaces declared in the outermost `depth` scopes.
    pub fn get_namespace_count(&self, depth: i32) -> (n: i32)
        requires
            self.wf(),
        ensures
            n == accumulated(self@.namespaces, depth),
    {
        self.namespaces.get_accumulated_count(depth)
    }

    /// The number of attributes of the current start tag; -1 at other events.
    pub fn get_attribute_count(&self) -> (n: isize)
        requires
            self.wf(),
        ensures
            n == (if self@.event != START_TAG { -1 } else { (self@.attributes.len() / 5) as int }),
    {
        if self.event != START_TAG {
            -1
        } else {
            (self.attributes.len() as i32 / ATTRIBUTE_LENGHT) as isize
        }
    }

    /// The prefix of the namespace declaration at `index`, from the string pool.
    pub fn get_namespace_prefix(&mut self, index: i32) -> (p: Option<String>)
        requires
            old(self).wf(),
            pool_string(old(self)@, entry_at(old(self)@.namespaces, index, true)) is Some,
        ensures
            *final(self) == *old(self),
            opt_text(p) == pool_string(old(self)@, entry_at(old(self)@.namespaces, index, true)).unwrap(),
    {
        self.namespace_string(index, true).unwrap()
    }

    /// The uri of the namespace declaration at `index`, from the string pool.
    pub fn get_namespace_uri(&mut self, index: i32) -> (u: Option<String>)
        requires
            old(self).wf(),
            pool_string(old(self)@, entry_at(old(self)@.namespaces, index, false)) is Some,
        ensures
            *final(self) == *old(self),
            opt_text(u) == pool_string(old(self)@, entry_at(old(self)@.namespaces, index, false)).unwrap(),
    {
        self.namespace_string(index, false).unwrap()
    }

    /// `pool_string` of the prefix (or uri) of the namespace declaration at `index`.
    pub fn namespace_string(&self, index: i32, prefix: bool) -> (p: Option<Option<String>>)
        requires
            self.wf(),
        ensures
            match pool_string(self@, entry_at(self@.namespaces, index, prefix)) {
                Some(o) => p matches Some(x) && opt_text(x) == o,
                None => p is None,
            },
    {
        let i = self.namespaces.get(index, prefix);
        self.pool_string(i)
    }

    /// The prefix of the namespace of attribute `index`, from the string pool.
    pub fn get_attribute_prefix(&mut self, index: i32) -> (p: Option<String>)
        requires
            old(self).wf(),
            is_attribute(old(self)@, index),
            pool_string(old(self)@, attribute_prefix_index(old(self)@, index)) is Some,
        ensures
            *final(self) == *old(self),
            opt_text(p) == pool_string(old(self)@, attribute_prefix_index(old(self)@, index)).unwrap(),
    {
        self.attribute_string(index, ATTRIBUTE_IX_NAMESPACE_URI).unwrap()
    }

    /// The name of attribute `index`, from the string pool.
    pub fn get_attribute_name(&mut self, index: i32) -> (n: Option<String>)
        requires
            old(self).wf(),
            is_attribute(old(self)@, index),
            pool_string(old(self)@, attribute_word(old(self)@, index, 1)) is Some,
        ensures
            *final(self) == *old(self),
            opt_text(n) == pool_string(old(self)@, attribute_word(old(self)@, index, 1)).unwrap(),
    {
        self.attribute_string(index, ATTRIBUTE_IX_NAME).unwrap()
    }

    /// `pool_string` of the namespace prefix (for `field` 0) or the name (for
    /// `field` 1) of attribute `index`.
    pub fn attribute_string(&self, index: i32, field: i32) -> (t: Option<Option<String>>)
        requires
            self.wf(),
            is_attribute(self@, index),
            field == 0 || field == 1,
        ensures
            match pool_string(
                self@,
                if field == 0 {
                    attribute_prefix_index(self@, index)
                } else {
                    attribute_word(self@, index, 1)
                },
            ) {
                Some(o) => t matches Some(x) && opt_text(x) == o,
                None => t is None,
            },
    {
        let offset = self.get_attribute_offset(index);
        if field == ATTRIBUTE_IX_NAMESPACE_URI {
            let uri = self.attributes[(offset + ATTRIBUTE_IX_NAMESPACE_URI) as usize];
            let prefix = self.namespaces.find_prefix(uri);
            self.pool_string(prefix)
        } else {
            let name = self.attributes[(offset + ATTRIBUTE_IX_NAME) as usize];
            self.pool_string(name)
        }
    }

    /// The value type of attribute `index`.
    pub fn get_attribute_value_type(&self, index: i32) -> (t: i32)
        requires
            self.wf(),
            is_attribute(self@, index),
        ensures
            t == attribute_word(self@, index, 3),
    {
        let offset = self.get_attribute_offset(index);
        self.attributes[(offset + ATTRIBUTE_IX_VALUE_TYPE) as usize]
    }

    /// The value data of attribute `index`.
    pub fn get_attribute_value_data(&self, index: i32) -> (d: i32)
        requires
            self.wf(),
            is_attribute(self@, index),
        ensures
            d == attribute_word(self@, index, 4),
    {
        let offset = self.get_attribute_offset(index);
        self.attributes[(offset + ATTRIBUTE_IX_VALUE_DATA) as usize]
    }

    /// The string value of attribute `index` from the string pool; empty for
    /// a value of another type.
    pub fn get_attribute_value1(&mut self, index: i32) -> (v: Option<String>)
        requires
            old(self).wf(),
            is_attribute(old(self)@, index),
            attribute_word(old(self)@, index, 3) == TYPE_STRING ==> pool_string(
                old(self)@,
                attribute_word(old(self)@, index, 2),
            ) is Some,
        ensures
            *final(self) == *old(self),
            opt_text(v) == (if attribute_word(old(self)@, index, 3) == TYPE_STRING {
                pool_string(old(self)@, attribute_word(old(self)@, index, 2)).unwrap()
            } else {
                Some(Seq::<char>::empty())
            }),
    {
        let offset = self.get_attribute_offset(index);
        let value_type = self.attributes[(offset + ATTRIBUTE_IX_VALUE_TYPE) as usize];
        if value_type == TYPE_STRING {
            let value_string = self.attributes[(offset + ATTRIBUTE_IX_VALUE_STRING) as usize];
            self.pool_string(value_string).unwrap()
        } else {
            let _ = self.attributes[(offset + ATTRIBUTE_IX_VALUE_DATA) as usize];
            Some(String::new())
        }
    }

    /// The value of attribute `index`.
    pub fn get_attribute_value(&mut self, index: i32) -> (v: AttributeValue)
        requires
            old(self).wf(),
            is_attribute(old(self)@, index),
            attribute_value(old(self)@, index) is Some,
        ensures
            *final(self) == *old(self),
            v@ == attribute_value(old(self)@, index).unwrap(),
    {
        match self.try_attribute_value(index) {
            Some(v) => v,
            None => AttributeValue::Text(String::new()),
        }
    }

    /// Carries out `attribute_value`.
    pub fn try_attribute_value(&self, index: i32) -> (v: Option<AttributeValue>)
        requires
            self.wf(),
            is_attribute(self@, index),
        ensures
            match attribute_value(self@, index) {
                Some(m) => v matches Some(x) && x@ == m,
                None => v is None,
            },
    {
        let tp = self.get_attribute_value_type(index);
        let data = self.get_attribute_value_data(index);
        if tp == TYPE_STRING {
            let offset = self.get_attribute_offset(index);
            let value_string = self.attributes[(offset + ATTRIBUTE_IX_VALUE_STRING) as usize];
            match self.pool_string(value_string) {
                Some(o) => Some(AttributeValue::Text(
                    match o {
                        Some(t) => t,
                        None => String::new(),
                    },
                )),
                None => None,
            }
        } else {
            format_typed_value(tp, data)
        }
    }

    /// The offset of attribute `index` in the attribute words.
    fn get_attribute_offset(&self, index: i32) -> (offset: i32)
        requires
            self.wf(),
            is_attribute(self@, index),
        ensures
            offset == 5 * index,
    {
        let offset = index * 5;
        offset
    }
}

/// Keeps only the top byte of the value type of each attribute.
fn shift_value_types(attributes: &mut Vec<i32>)
    requires
        old(attributes)@.len() <= 5 * 0xFFFF,
    ensures
        final(attributes)@ == with_value_types(old(attributes)@),
{
    let ghost a = attributes@;
    let mut i: i32 = ATTRIBUTE_IX_VALUE_TYPE;
    while i < attributes.len() as i32
        invariant
            a.len() <= 5 * 0xFFFF,
            attributes@.len() == a.len(),
            3 <= i,
            (i - 3) % 5 == 0,
            i <= a.len() + 5,
            forall|k: int|
                0 <= k < a.len() ==> #[trigger] attributes@[k] == (if k % 5 == 3 && k < i {
                    a[k] >> 24
                } else {
                    a[k]
                }),
        decreases a.len() + 5 - i,
    {
        let v = attributes[i as usize] >> 24;
        attributes.set(i as usize, v);
        i = i + ATTRIBUTE_LENGHT;
    }
    assert(attributes@ =~= with_value_types(a));
}

} // verus!
