use vstd::prelude::*;
use crate::xml::constants::{START_DOCUMENT, END_DOCUMENT, START_TAG, END_TAG, TEXT};
use crate::xml::namespace_stack::{
    NS_LIMIT, Scopes, size, pushed, popped, flatten, total, accumulated, entry_at,
};
use crate::xml::constants::{TYPE_REFERENCE, TYPE_ATTRIBUTE, TYPE_FIRST_INT, TYPE_INT_HEX, TYPE_INT_BOOLEAN,
    TYPE_FIRST_COLOR_INT, TYPE_LAST_COLOR_INT};
use crate::numbers::{decimal, upper_hex, hex8};
use crate::xml::reader::ReaderModel;
use crate::xml::parser::{
    ValueModel, typed_value, CHUNK_RESOURCEIDS,
    ChunkStep, ParserModel, chunk_step, scan, next_state, settled, cleared, at_pos, pool_string,
    attribute_word, is_attribute, CHUNK_XML_START_NAMESPACE, CHUNK_XML_END_NAMESPACE,
    CHUNK_XML_START_TAG, CHUNK_XML_END_TAG, CHUNK_XML_TEXT,
};

verus! {

/// The test that ends the document after an end tag: no scope but the
/// outermost is open (depth 0), and it declares nothing.
pub open spec fn document_ends(s: ParserModel) -> bool {
    s.namespaces.len() - 1 == 0 && accumulated(s.namespaces, 1) == 0
}

/// Whether the `j`-th chunk of six words from word `p` of `d` is a namespace
/// declaration chunk whose words are all in `d`.
pub open spec fn start_namespace_at(d: Seq<i32>, p: int, j: int) -> bool {
    let q = p + 6 * j;
    0 <= q && q + 5 < d.len() && d[q] == CHUNK_XML_START_NAMESPACE
}

/// Whether the `j`-th chunk of six words from word `p` of `d` is a namespace
/// end chunk whose type and line words are in `d`.
pub open spec fn end_namespace_at(d: Seq<i32>, p: int, j: int) -> bool {
    let q = p + 6 * j;
    0 <= q && q + 2 < d.len() && d[q] == CHUNK_XML_END_NAMESPACE
}

/// The `(prefix, uri)` pairs of `k` namespace declaration chunks from word `p`.
pub open spec fn declarations(d: Seq<i32>, p: int, k: nat) -> Seq<(i32, i32)> {
    Seq::new(k, |j: int| (d[p + 6 * j + 4], d[p + 6 * j + 5]))
}

/// `s` after reading `k` namespace declaration chunks: they are added to the
/// innermost scope, and the reader is past them.
pub open spec fn with_declarations(s: ParserModel, k: nat) -> ParserModel {
    let d = s.reader.unwrap().data;
    let p = s.reader.unwrap().pos as int;
    ParserModel {
        namespaces: s.namespaces.drop_last().push(s.namespaces.last() + declarations(d, p, k)),
        ..at_pos(s, p + 6 * k)
    }
}

/// `s` after reading `j` namespace end chunks: each closes the last
/// declaration of the innermost scope, and the reader is past them.
pub open spec fn popped_through(s: ParserModel, j: nat) -> ParserModel
    decreases j,
{
    if j == 0 {
        s
    } else {
        let t = popped_through(s, (j - 1) as nat);
        ParserModel { namespaces: popped(t.namespaces), ..at_pos(t, (t.reader.unwrap().pos as int) + 6) }
    }
}

proof fn lemma_ends(s: ParserModel)
    ensures
        document_ends(s) <==> (s.namespaces.len() == 1 && s.namespaces.last().len() == 0),
{
    let ns = s.namespaces;
    if ns.len() == 1 {
        assert(ns.take(1) =~= ns);
        assert(ns.drop_last() =~= Seq::<Seq<(i32, i32)>>::empty());
        assert(flatten(ns.drop_last()) =~= Seq::<(i32, i32)>::empty());
        assert(flatten(ns) =~= ns.last());
    }
}

proof fn lemma_declarations_step(s: ParserModel, k: nat)
    requires
        s.reader is Some,
        s.namespaces.len() > 0,
        k > 0,
        start_namespace_at(s.reader.unwrap().data, s.reader.unwrap().pos as int, 0),
    ensures
        ({
            let d = s.reader.unwrap().data;
            let p = s.reader.unwrap().pos as int;
            let s1 = ParserModel {
                namespaces: pushed(s.namespaces, d[p + 4], d[p + 5]),
                ..at_pos(s, p + 6)
            };
            &&& s1.namespaces.len() == s.namespaces.len()
            &&& s1.namespaces.last().len() > 0
            &&& size(s1.namespaces) == size(s.namespaces) + 2
            &&& with_declarations(s1, (k - 1) as nat) == with_declarations(s, k)
        }),
{
    let d = s.reader.unwrap().data;
    let p = s.reader.unwrap().pos as int;
    let ns = s.namespaces;
    let s1 = ParserModel { namespaces: pushed(ns, d[p + 4], d[p + 5]), ..at_pos(s, p + 6) };
    let top = ns.last().push((d[p + 4], d[p + 5]));
    assert(s1.namespaces.drop_last() =~= ns.drop_last());
    assert(flatten(s1.namespaces) =~= flatten(ns) + seq![(d[p + 4], d[p + 5])]);
    assert(top + declarations(d, p + 6, (k - 1) as nat) =~= ns.last() + declarations(d, p, k));
    assert(s1.namespaces.drop_last().push(s1.namespaces.last() + declarations(d, p + 6, (k - 1) as nat))
        =~= ns.drop_last().push(ns.last() + declarations(d, p, k)));
}

/// Namespace declaration chunks read before the next event are added, in
/// order, to the innermost scope; reading then goes on past them.
pub proof fn law_namespace_chunks(s: ParserModel, ev: i32, k: nat)
    requires
        s.reader is Some,
        s.namespaces.len() > 0,
        ev != START_DOCUMENT,
        k > 0 ==> !(ev == END_TAG && s.namespaces.len() == 1 && s.namespaces.last().len() == 0),
        size(s.namespaces) + 2 * k + 2 <= NS_LIMIT,
        forall|j: int| 0 <= j < k ==> #[trigger] start_namespace_at(s.reader.unwrap().data, s.reader.unwrap().pos as int, j),
    ensures
        scan(s, ev) == scan(with_declarations(s, k), ev),
    decreases k,
{
    let d = s.reader.unwrap().data;
    let p = s.reader.unwrap().pos as int;
    if k == 0 {
        assert(declarations(d, p, 0) =~= Seq::<(i32, i32)>::empty());
        assert(s.namespaces.drop_last().push(s.namespaces.last()) =~= s.namespaces);
        assert(with_declarations(s, 0) == s);
    } else {
        assert(start_namespace_at(d, p, 0));
        lemma_declarations_step(s, k);
        let s1 = ParserModel { namespaces: pushed(s.namespaces, d[p + 4], d[p + 5]), ..at_pos(s, p + 6) };
        assert(chunk_step(s, ev) == ChunkStep::More(s1));
        assert forall|j: int| 0 <= j < k - 1 implies #[trigger] start_namespace_at(
            s1.reader.unwrap().data,
            s1.reader.unwrap().pos as int,
            j,
        ) by {
            assert(start_namespace_at(d, p, j + 1));
        }
        law_namespace_chunks(s1, ev, (k - 1) as nat);
    }
}

/// A start tag chunk opens a scope for the element: at that tag, the count at
/// the element's depth exceeds the count at the depth above by the number of
/// declarations in the scope it was read in, and those declarations come in
/// order from index `accumulated(.., depth - 1)`.
pub proof fn law_start_tag_counts(u: ParserModel, ev: i32)
    requires
        u.namespaces.len() > 0,
    ensures
        chunk_step(u, ev) matches ChunkStep::Done(t) ==> t.event == START_TAG ==> ({
            let depth = (t.namespaces.len() - 1) as i32;
            let c = accumulated(t.namespaces, (depth - 1) as i32);
            &&& accumulated(t.namespaces, depth) == c + u.namespaces.last().len()
            &&& c == total(u.namespaces.drop_last())
            &&& forall|j: int|
                0 <= j < u.namespaces.last().len() ==> #[trigger] entry_at(t.namespaces, (c + j) as i32, true)
                    == u.namespaces.last()[j].0 && entry_at(t.namespaces, (c + j) as i32, false)
                    == u.namespaces.last()[j].1
        }),
{
    if let ChunkStep::Done(t) = chunk_step(u, ev) {
        if t.event == START_TAG {
            let ns = u.namespaces;
            let base = ns.drop_last();
            let tn = t.namespaces;
            assert(tn == ns.push(Seq::empty()));
            let depth = (tn.len() - 1) as i32;
            assert(depth == ns.len());
            assert(tn.take(depth as int) =~= ns);
            assert(ns.drop_last() =~= base);
            assert(flatten(ns) == flatten(base) + ns.last());
            assert(tn.drop_last() =~= ns);
            assert(flatten(tn) =~= flatten(ns));
            if ns.len() == 1 {
                assert(base =~= Seq::<Seq<(i32, i32)>>::empty());
                assert(flatten(base) =~= Seq::<(i32, i32)>::empty());
            } else {
                assert(tn.take(depth - 1) =~= base);
            }
            let c = accumulated(tn, (depth - 1) as i32);
            assert(c == total(base));
            assert forall|j: int| 0 <= j < ns.last().len() implies #[trigger] entry_at(tn, (c + j) as i32, true)
                == ns.last()[j].0 && entry_at(tn, (c + j) as i32, false) == ns.last()[j].1 by {
                assert(flatten(tn)[c + j] == ns.last()[j]);
            }
        }
    }
}

/// After `k` namespace declaration chunks, a start tag chunk read from a
/// state whose innermost scope declares nothing: the next event is that
/// start tag, the count at its depth exceeds the count at the depth above by
/// `k`, and the declarations stand in order from index `c`.
pub proof fn law_namespaces_then_start_tag(s: ParserModel, ev: i32, k: nat)
    requires
        s.reader is Some,
        s.namespaces.len() > 0,
        s.namespaces.last().len() == 0,
        ev != START_DOCUMENT,
        ev != -1i32,
        !(ev == END_TAG && s.namespaces.len() == 1),
        size(s.namespaces) + 2 * k + 4 <= NS_LIMIT,
        forall|j: int| 0 <= j < k ==> #[trigger] start_namespace_at(s.reader.unwrap().data, s.reader.unwrap().pos as int, j),
        ({
            let d = s.reader.unwrap().data;
            let q = (s.reader.unwrap().pos as int) + 6 * k;
            &&& q + 8 < d.len()
            &&& d[q] == CHUNK_XML_START_TAG
            &&& q + 9 + (d[q + 7] & 0xFFFF) * 5 <= d.len()
        }),
    ensures
        scan(s, ev) matches Some(t) && t.event == START_TAG && ({
            let d = s.reader.unwrap().data;
            let p = s.reader.unwrap().pos as int;
            let depth = (t.namespaces.len() - 1) as i32;
            let c = accumulated(t.namespaces, (depth - 1) as i32);
            &&& accumulated(t.namespaces, depth) == c + k
            &&& forall|j: int|
                0 <= j < k ==> #[trigger] entry_at(t.namespaces, (c + j) as i32, true) == d[p + 6 * j + 4]
                    && entry_at(t.namespaces, (c + j) as i32, false) == d[p + 6 * j + 5]
        }),
{
    let d = s.reader.unwrap().data;
    let p = s.reader.unwrap().pos as int;
    law_namespace_chunks(s, ev, k);
    let u = with_declarations(s, k);
    let q = p + 6 * k;
    assert(u.namespaces.last() =~= declarations(d, p, k));
    let ac = d[q + 7];
    assert(0 <= ac & 0xFFFF <= 0xFFFF) by (bit_vector);
    assert(size(u.namespaces) == size(s.namespaces) + 2 * k) by {
        let base = s.namespaces.drop_last();
        assert(s.namespaces.drop_last().push(s.namespaces.last()) =~= s.namespaces);
        assert(u.namespaces.drop_last() =~= base);
        assert(flatten(u.namespaces) == flatten(base) + u.namespaces.last());
        assert(flatten(s.namespaces) == flatten(base) + s.namespaces.last());
    }
    if let ChunkStep::Done(t) = chunk_step(u, ev) {
        assert(t.event == START_TAG);
    }
    assert(chunk_step(u, ev) is Done);
    law_start_tag_counts(u, ev);
    assert(u.namespaces.drop_last().len() + 1 == u.namespaces.len());
}

/// Before the root element, namespace declaration chunks go to the outermost
/// scope; the start tag chunk that follows gives the start of the document,
/// with the reader just past its type word.
pub proof fn law_namespaces_before_root(s: ParserModel, k: nat)
    requires
        s.reader is Some,
        s.namespaces.len() > 0,
        size(s.namespaces) + 2 * k + 2 <= NS_LIMIT,
        forall|j: int| 0 <= j < k ==> #[trigger] start_namespace_at(s.reader.unwrap().data, s.reader.unwrap().pos as int, j),
        ({
            let d = s.reader.unwrap().data;
            let q = (s.reader.unwrap().pos as int) + 6 * k;
            q + 2 < d.len() && d[q] == CHUNK_XML_START_TAG
        }),
    ensures
        scan(s, -1i32) == Some(
            ParserModel {
                event: START_DOCUMENT,
                ..at_pos(with_declarations(s, k), (s.reader.unwrap().pos as int) + 6 * k + 1)
            },
        ),
{
    law_namespace_chunks(s, -1i32, k);
    let u = with_declarations(s, k);
    assert(chunk_step(u, -1i32) == ChunkStep::Done(
        ParserModel { event: START_DOCUMENT, ..at_pos(u, (s.reader.unwrap().pos as int) + 6 * k + 1) },
    ));
}

/// A start tag chunk whose attribute count word is `w` gives a start tag
/// with `w & 0xFFFF` attributes; attribute `i` keeps the namespace, name,
/// string and data words of its record, and the top byte of its type word.
pub proof fn law_start_tag_attributes(s: ParserModel, ev: i32)
    requires
        s.reader is Some,
        ev != -1i32,
        !(ev == END_TAG && s.namespaces.len() == 1 && s.namespaces.last().len() == 0),
        size(s.namespaces) + 2 <= NS_LIMIT,
        ({
            let d = s.reader.unwrap().data;
            let p = s.reader.unwrap().pos as int;
            let p1 = if ev == START_DOCUMENT { p } else { p + 1 };
            &&& (ev == START_DOCUMENT || (p < d.len() && d[p] == CHUNK_XML_START_TAG))
            &&& p1 + 7 < d.len()
            &&& p1 + 8 + (d[p1 + 6] & 0xFFFF) * 5 <= d.len()
        }),
    ensures
        chunk_step(s, ev) matches ChunkStep::Done(t) && ({
            let d = s.reader.unwrap().data;
            let p = s.reader.unwrap().pos as int;
            let p1 = if ev == START_DOCUMENT { p } else { p + 1 };
            let n = d[p1 + 6] & 0xFFFF;
            let a = p1 + 8;
            &&& t.event == START_TAG
            &&& t.strings == s.strings
            &&& t.attributes.len() == 5 * n
            &&& t.attributes.len() / 5 == n
            &&& forall|i: i32|
                0 <= i < n ==> {
                    &&& is_attribute(t, i)
                    &&& #[trigger] attribute_word(t, i, 0) == d[a + 5 * i]
                    &&& attribute_word(t, i, 1) == d[a + 5 * i + 1]
                    &&& attribute_word(t, i, 2) == d[a + 5 * i + 2]
                    &&& attribute_word(t, i, 3) == d[a + 5 * i + 3] >> 24
                    &&& attribute_word(t, i, 4) == d[a + 5 * i + 4]
                    &&& pool_string(t, attribute_word(t, i, 1)) == pool_string(s, d[a + 5 * i + 1])
                }
        }),
{
    let d = s.reader.unwrap().data;
    let p = s.reader.unwrap().pos as int;
    let p1 = if ev == START_DOCUMENT { p } else { p + 1 };
    let w = d[p1 + 6];
    assert(0 <= w & 0xFFFF <= 0xFFFF) by (bit_vector);
    let n = w & 0xFFFF;
    let a = p1 + 8;
    if let ChunkStep::Done(t) = chunk_step(s, ev) {
        assert forall|i: i32| 0 <= i < n implies {
            &&& is_attribute(t, i)
            &&& #[trigger] attribute_word(t, i, 0) == d[a + 5 * i]
            &&& attribute_word(t, i, 1) == d[a + 5 * i + 1]
            &&& attribute_word(t, i, 2) == d[a + 5 * i + 2]
            &&& attribute_word(t, i, 3) == d[a + 5 * i + 3] >> 24
            &&& attribute_word(t, i, 4) == d[a + 5 * i + 4]
            &&& pool_string(t, attribute_word(t, i, 1)) == pool_string(s, d[a + 5 * i + 1])
        } by {
            assert((5 * i + 3) % 5 == 3);
            assert((5 * i) % 5 == 0);
            assert((5 * i + 1) % 5 == 1);
            assert((5 * i + 2) % 5 == 2);
            assert((5 * i + 4) % 5 == 4);
        }
    }
    assert(chunk_step(s, ev) is Done);
}

proof fn lemma_popped_through_shift(u: ParserModel, j: nat)
    requires
        u.reader is Some,
    ensures
        popped_through(popped_through(u, 1), j) == popped_through(u, j + 1),
        popped_through(u, j).reader is Some,
        popped_through(u, j).reader.unwrap().data == u.reader.unwrap().data,
        popped_through(u, j).reader.unwrap().pos == (u.reader.unwrap().pos as int) + 6 * j,
        popped_through(u, j).strings == u.strings,
    decreases j,
{
    if j > 0 {
        lemma_popped_through_shift(u, (j - 1) as nat);
    }
}

proof fn lemma_end_chunks(u: ParserModel, k: nat)
    requires
        u.reader is Some,
        forall|j: int| 0 <= j < k ==> #[trigger] end_namespace_at(u.reader.unwrap().data, u.reader.unwrap().pos as int, j),
    ensures
        forall|j: nat|
            j <= k && #[trigger] document_ends(popped_through(u, j)) && (forall|i: nat|
                i < j ==> !document_ends(popped_through(u, i))) ==> scan(u, END_TAG) == Some(
                ParserModel { event: END_DOCUMENT, ..popped_through(u, j) },
            ),
        (forall|j: nat| j <= k ==> !#[trigger] document_ends(popped_through(u, j))) ==> scan(u, END_TAG)
            == scan(popped_through(u, k), END_TAG),
    decreases k,
{
    lemma_ends(u);
    let u1 = popped_through(u, 1);
    assert(popped_through(u, 0) == u);
    if !document_ends(u) && k > 0 {
        let d = u.reader.unwrap().data;
        let p = u.reader.unwrap().pos as int;
        assert(end_namespace_at(d, p, 0));
        assert(chunk_step(u, END_TAG) == ChunkStep::More(u1));
        lemma_popped_through_shift(u, 0);
        assert forall|j: int| 0 <= j < k - 1 implies #[trigger] end_namespace_at(
            u1.reader.unwrap().data,
            u1.reader.unwrap().pos as int,
            j,
        ) by {
            assert(end_namespace_at(d, p, j + 1));
        }
        lemma_end_chunks(u1, (k - 1) as nat);
        assert forall|j: nat|
            j <= k && #[trigger] document_ends(popped_through(u, j)) && (forall|i: nat|
                i < j ==> !document_ends(popped_through(u, i))) implies scan(u, END_TAG) == Some(
            ParserModel { event: END_DOCUMENT, ..popped_through(u, j) },
        ) by {
            assert(j != 0);
            lemma_popped_through_shift(u, (j - 1) as nat);
            assert forall|i: nat| i < j - 1 implies !document_ends(popped_through(u1, i)) by {
                lemma_popped_through_shift(u, i);
                assert(i + 1 < j);
            }
            assert(document_ends(popped_through(u1, (j - 1) as nat)));
        }
        if forall|j: nat| j <= k ==> !#[trigger] document_ends(popped_through(u, j)) {
            assert forall|j: nat| j <= k - 1 implies !#[trigger] document_ends(popped_through(u1, j)) by {
                lemma_popped_through_shift(u, j);
                assert(!document_ends(popped_through(u, j + 1)));
            }
            lemma_popped_through_shift(u, (k - 1) as nat);
        }
    } else if document_ends(u) {
        assert(chunk_step(u, END_TAG) == ChunkStep::Done(ParserModel { event: END_DOCUMENT, ..u }));
        assert forall|j: nat|
            j <= k && #[trigger] document_ends(popped_through(u, j)) && (forall|i: nat|
                i < j ==> !document_ends(popped_through(u, i))) implies scan(u, END_TAG) == Some(
            ParserModel { event: END_DOCUMENT, ..popped_through(u, j) },
        ) by {
            if j > 0 {
                assert(!document_ends(popped_through(u, 0)));
            }
        }
    }
}

/// After an end tag, the next advance first closes the element's scope, then
/// reads namespace end chunks, each closing a declaration. The document ends
/// at the first point (before the first end chunk or after one of them) where
/// only the outermost scope is open and it declares nothing; nothing after
/// that point is read. Where that never happens within the `k` end chunks,
/// reading goes on from after them, and a tag or text chunk there gives an
/// event other than the end of the document.
pub proof fn law_end_after_end_tag(s: ParserModel, k: nat)
    requires
        s.reader is Some,
        s.strings is Some,
        s.event == END_TAG,
        forall|j: int| 0 <= j < k ==> #[trigger] end_namespace_at(s.reader.unwrap().data, s.reader.unwrap().pos as int, j),
    ensures
        forall|j: nat|
            j <= k && #[trigger] document_ends(popped_through(settled(cleared(s)), j)) && (forall|i: nat|
                i < j ==> !document_ends(popped_through(settled(cleared(s)), i))) ==> {
                &&& next_state(s) == Some(
                    ParserModel { event: END_DOCUMENT, ..popped_through(settled(cleared(s)), j) },
                )
                &&& popped_through(settled(cleared(s)), j).reader.unwrap().pos == (s.reader.unwrap().pos as int) + 6 * j
            },
        (forall|j: nat| j <= k ==> !#[trigger] document_ends(popped_through(settled(cleared(s)), j)))
            ==> next_state(s) == scan(popped_through(settled(cleared(s)), k), END_TAG),
        ({
            let d = s.reader.unwrap().data;
            let q = (s.reader.unwrap().pos as int) + 6 * k;
            (forall|j: nat| j <= k ==> !#[trigger] document_ends(popped_through(settled(cleared(s)), j)))
                && q < d.len() && (d[q] == CHUNK_XML_START_TAG || d[q] == CHUNK_XML_END_TAG
                || d[q] == CHUNK_XML_TEXT) ==> (next_state(s) matches Some(t) ==> t.event != END_DOCUMENT)
        }),
{
    let u = settled(cleared(s));
    lemma_end_chunks(u, k);
    assert forall|j: nat|
        j <= k && #[trigger] document_ends(popped_through(u, j)) && (forall|i: nat|
            i < j ==> !document_ends(popped_through(u, i))) implies popped_through(u, j).reader.unwrap().pos
        == (s.reader.unwrap().pos as int) + 6 * j by {
        lemma_popped_through_shift(u, j);
    }
    lemma_popped_through_shift(u, k);
    let uk = popped_through(u, k);
    lemma_ends(uk);
}

/// A reference value is `@` and the id in upper-case hexadecimal; only an id
/// of the system package (top byte 1) gets `android:` between them. An
/// attribute reference is the same with `?`.
pub proof fn law_reference_values(data: i32)
    ensures
        typed_value(TYPE_REFERENCE, data) == Some(
            ValueModel::Text(
                if data >> 24 == 1 {
                    "@android:"@ + upper_hex(data)
                } else {
                    "@"@ + upper_hex(data)
                },
            ),
        ),
        typed_value(TYPE_ATTRIBUTE, data) == Some(
            ValueModel::Text(
                if data >> 24 == 1 {
                    "?android:"@ + upper_hex(data)
                } else {
                    "?"@ + upper_hex(data)
                },
            ),
        ),
{
    reveal_strlit("@");
    reveal_strlit("?");
    reveal_strlit("android:");
    reveal_strlit("@android:");
    reveal_strlit("?android:");
    assert("@"@ + "android:"@ =~= "@android:"@);
    assert("?"@ + "android:"@ =~= "?android:"@);
    assert("@"@ + Seq::<char>::empty() =~= "@"@);
    assert("?"@ + Seq::<char>::empty() =~= "?"@);
    assert(("@"@ + "android:"@) + upper_hex(data) =~= "@"@ + ("android:"@ + upper_hex(data)));
}

/// An integer value of a plain integer type is the decimal text of the whole
/// signed 32-bit data word; a hexadecimal or color integer is `0x` and its
/// eight hexadecimal digits; a boolean is `true` for any nonzero word.
pub proof fn law_int_values(tp: i32, data: i32)
    ensures
        (tp == TYPE_FIRST_INT || (TYPE_INT_BOOLEAN < tp && tp < TYPE_FIRST_COLOR_INT)) ==> typed_value(tp, data)
            == Some(ValueModel::Text(decimal(data as int))),
        (tp == TYPE_INT_HEX || (TYPE_FIRST_COLOR_INT <= tp && tp <= TYPE_LAST_COLOR_INT)) ==> typed_value(tp, data)
            == Some(ValueModel::Text("0x"@ + hex8(data))),
        tp == TYPE_INT_BOOLEAN ==> typed_value(tp, data) == Some(
            ValueModel::Text(if data != 0 { "true"@ } else { "false"@ }),
        ),
{
}

/// A resource id chunk of `cs` bytes (a multiple of four, at least eight) is
/// passed over whole: its `cs / 4 - 2` words after the type and size words are
/// the ids kept, and reading goes on at the word `cs / 4` after its type word;
/// where those words run past the end it cannot be read.
pub proof fn law_resource_ids_skipped(s: ParserModel, ev: i32)
    requires
        s.reader is Some,
        ev != START_DOCUMENT,
        !(ev == END_TAG && s.namespaces.len() == 1 && s.namespaces.last().len() == 0),
        ({
            let d = s.reader.unwrap().data;
            let p = s.reader.unwrap().pos as int;
            &&& p + 1 < d.len()
            &&& d[p] == CHUNK_RESOURCEIDS
            &&& d[p + 1] >= 8
            &&& d[p + 1] % 4 == 0
        }),
    ensures
        ({
            let d = s.reader.unwrap().data;
            let p = s.reader.unwrap().pos as int;
            let end = p + d[p + 1] / 4;
            &&& end <= d.len() ==> chunk_step(s, ev) == ChunkStep::More(
                ParserModel { resource_ids: Some(d.subrange(p + 2, end)), ..at_pos(s, end) },
            )
            &&& end > d.len() ==> chunk_step(s, ev) == ChunkStep::Fault
        }),
{
    let d = s.reader.unwrap().data;
    let p = s.reader.unwrap().pos as int;
    if d[p + 1] == 8 {
        assert(d.subrange(p + 2, p + 2) =~= Seq::<i32>::empty());
    }
}

/// Word layout of the tag and text chunks, read from word `p` after any
/// event but the start of the document and the end test: an end tag chunk
/// gives its line, namespace and name words (words 2, 4, 5) and reading goes
/// on six words on; a text chunk gives its line and string words (2 and 4)
/// and reading goes on seven words on; a start tag chunk gives its line,
/// namespace and name words (2, 4, 5) and reading goes on after its nine
/// words and its attribute records.
pub proof fn law_tag_chunks(s: ParserModel, ev: i32)
    requires
        s.reader is Some,
        ev != START_DOCUMENT,
        ev != -1i32,
        !(ev == END_TAG && s.namespaces.len() == 1 && s.namespaces.last().len() == 0),
        size(s.namespaces) + 2 <= NS_LIMIT,
    ensures
        ({
            let d = s.reader.unwrap().data;
            let p = s.reader.unwrap().pos as int;
            &&& (p + 5 < d.len() && d[p] == CHUNK_XML_END_TAG) ==> (chunk_step(s, ev) matches ChunkStep::Done(t)
                && t.event == END_TAG && t.line_number == d[p + 2] && t.namespace_uri == d[p + 4] && t.name
                == d[p + 5] && t.decrease_depth && t.reader == Some(
                ReaderModel { data: d, pos: (p + 6) as nat },
            ) && t.namespaces == s.namespaces)
            &&& (p + 4 < d.len() && d[p] == CHUNK_XML_TEXT) ==> (chunk_step(s, ev) matches ChunkStep::Done(t)
                && t.event == TEXT && t.line_number == d[p + 2] && t.name == d[p + 4] && t.reader == Some(
                ReaderModel { data: d, pos: (p + 7) as nat },
            ) && t.namespaces == s.namespaces)
            &&& (p + 8 < d.len() && d[p] == CHUNK_XML_START_TAG && p + 9 + (d[p + 7] & 0xFFFF) * 5 <= d.len())
                ==> (chunk_step(s, ev) matches ChunkStep::Done(t) && t.event == START_TAG && t.line_number == d[p
                + 2] && t.namespace_uri == d[p + 4] && t.name == d[p + 5] && t.reader == Some(
                ReaderModel { data: d, pos: (p + 9 + (d[p + 7] & 0xFFFF) * 5) as nat },
            ) && t.namespaces == s.namespaces.push(Seq::empty()))
        }),
{
    let d = s.reader.unwrap().data;
    let p = s.reader.unwrap().pos as int;
    if p + 8 < d.len() {
        let w = d[p + 7];
        assert(0 <= w & 0xFFFF <= 0xFFFF) by (bit_vector);
    }
}

/// A namespace declaration chunk adds its prefix and uri words (words 4 and
/// 5) to the innermost scope, and a namespace end chunk removes the last
/// declaration of that scope; reading goes on six words on.
pub proof fn law_namespace_chunk_words(s: ParserModel, ev: i32)
    requires
        s.reader is Some,
        ev != START_DOCUMENT,
        !(ev == END_TAG && s.namespaces.len() == 1 && s.namespaces.last().len() == 0),
        size(s.namespaces) + 4 <= NS_LIMIT,
    ensures
        ({
            let d = s.reader.unwrap().data;
            let p = s.reader.unwrap().pos as int;
            &&& start_namespace_at(d, p, 0) ==> chunk_step(s, ev) == ChunkStep::More(
                ParserModel { namespaces: pushed(s.namespaces, d[p + 4], d[p + 5]), ..at_pos(s, p + 6) },
            )
            &&& end_namespace_at(d, p, 0) ==> chunk_step(s, ev) == ChunkStep::More(
                ParserModel { namespaces: popped(s.namespaces), ..at_pos(s, p + 6) },
            )
        }),
{
}

} // verus!
