use vstd::prelude::*;

verus! {

/// Bound on the number of words that the declarations and frame markers may occupy.
pub const NS_LIMIT: usize = 0x4000_0000;

/// The namespace declarations of all open scopes, innermost scope last; each
/// scope holds its `(prefix, uri)` string indices in the order they were declared.
pub type Scopes = Seq<Seq<(i32, i32)>>;

/// All declarations, outermost scope first.
pub open spec fn flatten(fs: Scopes) -> Seq<(i32, i32)>
    decreases fs.len(),
{
    if fs.len() == 0 {
        Seq::empty()
    } else {
        flatten(fs.drop_last()) + fs.last()
    }
}

/// The number of declarations in all scopes.
pub open spec fn total(fs: Scopes) -> nat {
    flatten(fs).len()
}

/// The number of words that the scopes take: two markers per scope and two words per declaration.
pub open spec fn size(fs: Scopes) -> int {
    (2 * fs.len() + 2 * total(fs)) as int
}

/// `fs` after declaring `(prefix, uri)` in the innermost scope, opening one first if there is none.
pub open spec fn pushed(fs: Scopes, prefix: i32, uri: i32) -> Scopes {
    let fs1 = if fs.len() == 0 { seq![Seq::<(i32, i32)>::empty()] } else { fs };
    fs1.update(fs1.len() - 1, fs1.last().push((prefix, uri)))
}

/// Whether the innermost scope holds a declaration that `popped` removes.
pub open spec fn can_pop(fs: Scopes) -> bool {
    fs.len() > 0 && fs.last().len() > 0
}

/// `fs` without the last declaration of the innermost scope, when there is one.
pub open spec fn popped(fs: Scopes) -> Scopes {
    if can_pop(fs) {
        fs.update(fs.len() - 1, fs.last().drop_last())
    } else {
        fs
    }
}

/// `fs` after closing the innermost scope; the outermost scope is never closed.
pub open spec fn shallowed(fs: Scopes) -> Scopes {
    if fs.len() > 1 {
        fs.drop_last()
    } else {
        fs
    }
}

/// The number of declarations in the outermost `depth` scopes (all of them if
/// `depth` is larger than the number of scopes, none if it is negative).
pub open spec fn accumulated(fs: Scopes, depth: i32) -> int {
    if fs.len() == 0 || depth < 0 {
        0
    } else if depth > fs.len() {
        total(fs) as int
    } else {
        total(fs.take(depth as int)) as int
    }
}

/// The prefix (or uri) of the declaration at `index`, counting from the
/// outermost scope; -1 when there is none.
pub open spec fn entry_at(fs: Scopes, index: i32, prefix: bool) -> i32 {
    if index < 0 || index >= total(fs) {
        -1i32
    } else if prefix {
        flatten(fs)[index as int].0
    } else {
        flatten(fs)[index as int].1
    }
}

/// The other half of the latest declaration whose prefix (if `by_prefix`) or
/// uri (otherwise) is `key`; -1 when there is none.
pub open spec fn lookup(pairs: Seq<(i32, i32)>, key: i32, by_prefix: bool) -> i32
    decreases pairs.len(),
{
    if pairs.len() == 0 {
        -1i32
    } else if by_prefix && pairs.last().0 == key {
        pairs.last().1
    } else if !by_prefix && pairs.last().1 == key {
        pairs.last().0
    } else {
        lookup(pairs.drop_last(), key, by_prefix)
    }
}


/// Popping right after a push into an open scope removes exactly that
/// declaration and reports it.
pub proof fn law_push_then_pop(fs: Scopes, prefix: i32, uri: i32)
    requires
        fs.len() > 0,
    ensures
        can_pop(pushed(fs, prefix, uri)),
        popped(pushed(fs, prefix, uri)) == fs,
{
    let top = fs.last().push((prefix, uri));
    assert(top.drop_last() =~= fs.last());
    assert(popped(pushed(fs, prefix, uri)) =~= fs);
}

/// Pushing into a stack with no scope opens one that holds just that declaration.
pub proof fn law_push_opens_scope(prefix: i32, uri: i32)
    ensures
        pushed(Seq::empty(), prefix, uri) == seq![seq![(prefix, uri)]],
{
    assert(pushed(Seq::empty(), prefix, uri) =~= seq![seq![(prefix, uri)]]);
    assert(pushed(Seq::empty(), prefix, uri)[0] =~= seq![(prefix, uri)]);
}

/// Closing a scope right after opening one restores the stack, provided a
/// scope was open before.
pub proof fn law_open_then_close(fs: Scopes)
    requires
        fs.len() > 0,
    ensures
        shallowed(fs.push(Seq::empty())) == fs,
{
    assert(fs.push(Seq::empty()).drop_last() =~= fs);
}

/// The outermost scope is never closed.
pub proof fn law_outermost_stays(fs: Scopes)
    requires
        fs.len() > 0,
    ensures
        shallowed(fs).len() > 0,
        shallowed(fs)[0] == fs[0],
{
}

/// A declaration shadows every earlier one: looking up its uri gives its
/// prefix, and looking up its prefix gives its uri.
pub proof fn law_latest_declaration_wins(fs: Scopes, prefix: i32, uri: i32)
    ensures
        lookup(flatten(pushed(fs, prefix, uri)), uri, false) == prefix,
        lookup(flatten(pushed(fs, prefix, uri)), prefix, true) == uri,
{
    lemma_flatten_pushed(fs, prefix, uri);
}

/// A new declaration is the last one, counting from the outermost scope.
pub proof fn law_pushed_entry_is_last(fs: Scopes, prefix: i32, uri: i32)
    requires
        total(fs) < i32::MAX,
    ensures
        total(pushed(fs, prefix, uri)) == total(fs) + 1,
        entry_at(pushed(fs, prefix, uri), total(fs) as i32, true) == prefix,
        entry_at(pushed(fs, prefix, uri), total(fs) as i32, false) == uri,
{
    lemma_flatten_pushed(fs, prefix, uri);
}

proof fn lemma_flatten_pushed(fs: Scopes, prefix: i32, uri: i32)
    ensures
        flatten(pushed(fs, prefix, uri)) == flatten(fs).push((prefix, uri)),
{
    let fs1 = if fs.len() == 0 { seq![Seq::<(i32, i32)>::empty()] } else { fs };
    let nfs = pushed(fs, prefix, uri);
    assert(nfs.drop_last() =~= fs1.drop_last());
    if fs.len() == 0 {
        assert(fs1.drop_last() =~= Seq::<Seq<(i32, i32)>>::empty());
        assert(flatten(fs1.drop_last()) =~= Seq::<(i32, i32)>::empty());
        assert(flatten(nfs) =~= flatten(fs).push((prefix, uri)));
    } else {
        assert(flatten(nfs) =~= flatten(fs).push((prefix, uri)));
    }
}

/// The count of declarations in the outermost scopes grows with the number
/// of scopes counted, up to the count of all declarations.
pub proof fn law_accumulated_monotone(fs: Scopes, d1: i32, d2: i32)
    requires
        d1 <= d2,
    ensures
        0 <= accumulated(fs, d1) <= accumulated(fs, d2) <= total(fs),
        d2 >= fs.len() && fs.len() > 0 ==> accumulated(fs, d2) == total(fs),
{
    if fs.len() > 0 {
        assert(fs.take(fs.len() as int) =~= fs);
        if 0 <= d2 {
            let k2 = if d2 > fs.len() { fs.len() as int } else { d2 as int };
            lemma_take_prefix(fs, k2);
            if 0 <= d1 {
                let k1 = if d1 > fs.len() { fs.len() as int } else { d1 as int };
                lemma_take_prefix(fs.take(k2), k1);
                assert(fs.take(k2).take(k1) =~= fs.take(k1));
            }
        }
        if d2 >= fs.len() {
            assert(fs.take(fs.len() as int) =~= fs);
        }
    }
}


/// The number of declarations in the innermost scope (0 when there is none).
pub open spec fn current_count(fs: Scopes) -> int {
    if fs.len() == 0 {
        0
    } else {
        fs.last().len() as int
    }
}

/// What a push changes, seen through the stack's queries: the depth becomes
/// at least one, the innermost scope holds one more declaration, the new
/// declaration is found both ways and stands at index `t` (the count of all
/// declarations before it), the count at full depth grows by one, and every
/// earlier declaration keeps its index.
pub proof fn law_push_observable(fs: Scopes, prefix: i32, uri: i32)
    requires
        total(fs) < i32::MAX,
        fs.len() < i32::MAX,
    ensures
        pushed(fs, prefix, uri).len() == (if fs.len() == 0 { 1 } else { fs.len() }),
        current_count(pushed(fs, prefix, uri)) == current_count(fs) + 1,
        lookup(flatten(pushed(fs, prefix, uri)), prefix, true) == uri,
        lookup(flatten(pushed(fs, prefix, uri)), uri, false) == prefix,
        entry_at(pushed(fs, prefix, uri), total(fs) as i32, true) == prefix,
        entry_at(pushed(fs, prefix, uri), total(fs) as i32, false) == uri,
        accumulated(pushed(fs, prefix, uri), pushed(fs, prefix, uri).len() as i32) == total(fs) + 1,
        accumulated(fs, fs.len() as i32) == total(fs),
        forall|i: i32, b: bool|
            0 <= i < total(fs) ==> #[trigger] entry_at(pushed(fs, prefix, uri), i, b) == entry_at(fs, i, b),
{
    let nfs = pushed(fs, prefix, uri);
    lemma_flatten_pushed(fs, prefix, uri);
    law_latest_declaration_wins(fs, prefix, uri);
    law_pushed_entry_is_last(fs, prefix, uri);
    assert(nfs.take(nfs.len() as int) =~= nfs);
    assert(fs.take(fs.len() as int) =~= fs);
    if fs.len() == 0 {
        assert(flatten(fs) =~= Seq::<(i32, i32)>::empty());
    }
}

/// Popping right after a push leaves every query of the stack as it was
/// before the push, provided a scope was open.
pub proof fn law_pop_after_push_observable(fs: Scopes, prefix: i32, uri: i32)
    requires
        fs.len() > 0,
    ensures
        can_pop(pushed(fs, prefix, uri)),
        popped(pushed(fs, prefix, uri)).len() == fs.len(),
        current_count(popped(pushed(fs, prefix, uri))) == current_count(fs),
        forall|d: i32| #[trigger] accumulated(popped(pushed(fs, prefix, uri)), d) == accumulated(fs, d),
        forall|x: i32, b: bool|
            #[trigger] lookup(flatten(popped(pushed(fs, prefix, uri))), x, b) == lookup(flatten(fs), x, b),
        forall|i: i32, b: bool| #[trigger] entry_at(popped(pushed(fs, prefix, uri)), i, b) == entry_at(fs, i, b),
{
    law_push_then_pop(fs, prefix, uri);
}

/// What opening a scope changes, seen through the stack's queries: the depth
/// grows by one, the new innermost scope is empty, the counts at every old
/// depth stay, the count at the new full depth is the old full count, and
/// every declaration is found and indexed as before.
pub proof fn law_open_scope_observable(fs: Scopes)
    requires
        fs.len() < i32::MAX,
    ensures
        fs.push(Seq::empty()).len() == fs.len() + 1,
        current_count(fs.push(Seq::empty())) == 0,
        forall|d: i32| d <= fs.len() ==> #[trigger] accumulated(fs.push(Seq::empty()), d) == accumulated(fs, d),
        accumulated(fs.push(Seq::empty()), (fs.len() + 1) as i32) == accumulated(fs, fs.len() as i32),
        flatten(fs.push(Seq::empty())) == flatten(fs),
        forall|x: i32, b: bool|
            #[trigger] lookup(flatten(fs.push(Seq::empty())), x, b) == lookup(flatten(fs), x, b),
        forall|i: i32, b: bool| #[trigger] entry_at(fs.push(Seq::empty()), i, b) == entry_at(fs, i, b),
{
    let nfs = fs.push(Seq::<(i32, i32)>::empty());
    assert(nfs.drop_last() =~= fs);
    assert(flatten(nfs) =~= flatten(fs));
    assert(nfs.take(nfs.len() as int) =~= nfs);
    assert(fs.take(fs.len() as int) =~= fs);
    assert forall|d: i32| d <= fs.len() implies #[trigger] accumulated(nfs, d) == accumulated(fs, d) by {
        if 0 <= d {
            assert(nfs.take(d as int) =~= fs.take(d as int));
        }
        if fs.len() == 0 && 0 <= d {
            assert(fs.take(d as int) =~= Seq::<Seq<(i32, i32)>>::empty());
            assert(flatten(fs.take(d as int)) =~= Seq::<(i32, i32)>::empty());
            assert(nfs.take(d as int) =~= Seq::<Seq<(i32, i32)>>::empty());
        }
    }
    if fs.len() == 0 {
        assert(flatten(nfs.drop_last()) =~= Seq::<(i32, i32)>::empty());
        assert(flatten(fs) =~= Seq::<(i32, i32)>::empty());
    }
}

/// The words of one scope's declarations.
spec fn pair_words(f: Seq<(i32, i32)>) -> Seq<i32> {
    Seq::new(2 * f.len(), |k: int| if k % 2 == 0 { f[k / 2].0 } else { f[k / 2].1 })
}

/// One scope as stored: its size, its declarations, its size again.
spec fn frame_words(f: Seq<(i32, i32)>) -> Seq<i32> {
    seq![f.len() as i32] + pair_words(f) + seq![f.len() as i32]
}

/// All scopes as stored, outermost first.
spec fn layout(fs: Scopes) -> Seq<i32>
    decreases fs.len(),
{
    if fs.len() == 0 {
        Seq::empty()
    } else {
        layout(fs.drop_last()) + frame_words(fs.last())
    }
}

proof fn lemma_frame_words(f: Seq<(i32, i32)>)
    ensures
        frame_words(f).len() == 2 + 2 * f.len(),
        frame_words(f)[0] == f.len() as i32,
        frame_words(f)[1 + 2 * f.len() as int] == f.len() as i32,
        forall|q: int| 0 <= q < f.len() ==> #[trigger] frame_words(f)[1 + 2 * q] == f[q].0,
        forall|q: int| 0 <= q < f.len() ==> #[trigger] frame_words(f)[2 + 2 * q] == f[q].1,
{
    assert forall|q: int| 0 <= q < f.len() implies #[trigger] frame_words(f)[1 + 2 * q] == f[q].0 by {
        assert(pair_words(f)[2 * q] == f[q].0);
    }
    assert forall|q: int| 0 <= q < f.len() implies #[trigger] frame_words(f)[2 + 2 * q] == f[q].1 by {
        assert(pair_words(f)[2 * q + 1] == f[q].1);
    }
}

/// Appending a declaration keeps the stored declarations where they were.
proof fn lemma_frame_words_push(f: Seq<(i32, i32)>, x: (i32, i32))
    ensures
        forall|j: int| 1 <= j <= 2 * f.len() ==> #[trigger] frame_words(f.push(x))[j] == frame_words(f)[j],
{
    let g = f.push(x);
    lemma_frame_words(f);
    lemma_frame_words(g);
    assert forall|j: int| 1 <= j <= 2 * f.len() implies #[trigger] frame_words(g)[j] == frame_words(f)[j] by {
        let q = (j - 1) / 2;
        if (j - 1) % 2 == 0 {
            assert(j == 1 + 2 * q);
            assert(g[q] == f[q]);
        } else {
            assert(j == 2 + 2 * q);
            assert(g[q] == f[q]);
        }
    }
}

proof fn lemma_layout_len(fs: Scopes)
    ensures
        layout(fs).len() == size(fs),
    decreases fs.len(),
{
    if fs.len() > 0 {
        lemma_layout_len(fs.drop_last());
    }
}

proof fn lemma_take_prefix(fs: Scopes, k: int)
    requires
        0 <= k <= fs.len(),
    ensures
        layout(fs.take(k)).len() <= layout(fs).len(),
        layout(fs).subrange(0, layout(fs.take(k)).len() as int) == layout(fs.take(k)),
        flatten(fs.take(k)).len() <= flatten(fs).len(),
        flatten(fs).subrange(0, flatten(fs.take(k)).len() as int) == flatten(fs.take(k)),
    decreases fs.len(),
{
    if k == fs.len() {
        assert(fs.take(k) =~= fs);
        assert(layout(fs).subrange(0, layout(fs).len() as int) =~= layout(fs));
        assert(flatten(fs).subrange(0, flatten(fs).len() as int) =~= flatten(fs));
    } else {
        let d = fs.drop_last();
        lemma_take_prefix(d, k);
        assert(d.take(k) =~= fs.take(k));
        assert(layout(fs).subrange(0, layout(fs.take(k)).len() as int)
            =~= layout(d).subrange(0, layout(fs.take(k)).len() as int));
        assert(flatten(fs).subrange(0, flatten(fs.take(k)).len() as int)
            =~= flatten(d).subrange(0, flatten(fs.take(k)).len() as int));
    }
}

proof fn lemma_take_step(fs: Scopes, k: int)
    requires
        0 <= k < fs.len(),
    ensures
        layout(fs.take(k + 1)) == layout(fs.take(k)) + frame_words(fs[k]),
        flatten(fs.take(k + 1)) == flatten(fs.take(k)) + fs[k],
{
    assert(fs.take(k + 1).drop_last() =~= fs.take(k));
}

/// Where scope `k` is stored, and what it holds there.
proof fn lemma_frame_at(fs: Scopes, k: int)
    requires
        0 <= k < fs.len(),
    ensures
        layout(fs.take(k)).len() == size(fs.take(k)),
        layout(fs.take(k + 1)).len() == layout(fs.take(k)).len() + 2 + 2 * fs[k].len(),
        layout(fs.take(k + 1)).len() <= layout(fs).len(),
        total(fs.take(k + 1)) == total(fs.take(k)) + fs[k].len(),
        total(fs.take(k + 1)) <= total(fs),
        forall|j: int|
            0 <= j < 2 + 2 * fs[k].len() ==> #[trigger] layout(fs)[layout(fs.take(k)).len() + j]
                == frame_words(fs[k])[j],
        forall|j: int|
            0 <= j < fs[k].len() ==> #[trigger] flatten(fs)[total(fs.take(k)) + j] == fs[k][j],
{
    lemma_layout_len(fs.take(k));
    lemma_take_step(fs, k);
    lemma_take_prefix(fs, k + 1);
    let a = layout(fs.take(k)).len() as int;
    let b = total(fs.take(k)) as int;
    assert forall|j: int| 0 <= j < 2 + 2 * fs[k].len() implies #[trigger] layout(fs)[a + j]
        == frame_words(fs[k])[j] by {
        assert(layout(fs)[a + j] == layout(fs).subrange(
            0,
            layout(fs.take(k + 1)).len() as int,
        )[a + j]);
    }
    assert forall|j: int| 0 <= j < fs[k].len() implies #[trigger] flatten(fs)[b + j]
        == fs[k][j] by {
        assert(flatten(fs)[b + j] == flatten(fs).subrange(
            0,
            flatten(fs.take(k + 1)).len() as int,
        )[b + j]);
    }
}

/// A stack of namespace scopes, stored in one word array: each scope is its
/// number of declarations, the `(prefix, uri)` pairs, and the number again.
pub struct NamespaceStack {
    data: Vec<i32>,
    data_length: usize,
    count: i32,
    depth: i32,
    scopes: Ghost<Scopes>,
}

impl View for NamespaceStack {
    type V = Scopes;

    closed spec fn view(&self) -> Scopes {
        self.scopes@
    }
}

impl NamespaceStack {
    /// The internal layout holds the scopes that the view names.
    pub closed spec fn wf(&self) -> bool {
        &&& self.data_length <= self.data@.len()
        &&& 3 <= self.data@.len() <= 2 * NS_LIMIT + 64
        &&& self.data@.subrange(0, self.data_length as int) == layout(self.scopes@)
        &&& self.depth == self.scopes@.len()
        &&& self.count == total(self.scopes@)
        &&& self.data_length == size(self.scopes@)
        &&& self.data_length <= NS_LIMIT
    }

    proof fn lemma_wf(&self)
        requires
            self.wf(),
        ensures
            layout(self.scopes@).len() == self.data_length,
            self.scopes@.len() <= NS_LIMIT / 2,
            total(self.scopes@) <= NS_LIMIT / 2,
            forall|k: int| 0 <= k < self.data_length ==> self.data@[k] == #[trigger] layout(self.scopes@)[k],
    {
        lemma_layout_len(self.scopes@);
        assert forall|k: int| 0 <= k < self.data_length implies self.data@[k] == #[trigger] layout(self.scopes@)[k] by {
            assert(self.data@.subrange(0, self.data_length as int)[k] == self.data@[k]);
        }
    }

    /// The stored scopes fit in the bound.
    pub(crate) proof fn lemma_size_bound(&self)
        requires
            self.wf(),
        ensures
            size(self@) <= NS_LIMIT,
            self@.len() <= NS_LIMIT / 2,
            total(self@) <= NS_LIMIT / 2,
    {
    }

    /// The number of declarations in all scopes.
    pub(crate) fn declaration_count(&self) -> (n: i32)
        requires
            self.wf(),
        ensures
            n == total(self@),
    {
        self.count
    }

    /// An empty stack.
    pub fn new() -> (stack: NamespaceStack)
        ensures
            stack.wf(),
            stack@ == Seq::<Seq<(i32, i32)>>::empty(),
    {
        let stack = NamespaceStack {
            data: vec![0i32; 32],
            data_length: 0,
            count: 0,
            depth: 0,
            scopes: Ghost(Seq::empty()),
        };
        assert(stack.data@.subrange(0, 0) =~= layout(Seq::<Seq<(i32, i32)>>::empty()));
        stack
    }

    /// The number of declarations in the innermost scope (0 when there is none).
    pub fn get_current_count(&self) -> (n: i32)
        requires
            self.wf(),
        ensures
            n == (if self@.len() == 0 { 0 } else { self@.last().len() as int }),
    {
        proof {
            self.lemma_wf();
        }
        if self.data_length == 0 {
            0
        } else {
            let offset = self.data_length - 1;
            proof {
                let fs = self.scopes@;
                lemma_layout_len(fs.drop_last());
                assert(layout(fs)[offset as int] == frame_words(fs.last()).last());
            }
            self.data[offset]
        }
    }

    /// The number of declarations in the outermost `depth` scopes.
    pub fn get_accumulated_count(&self, depth: i32) -> (n: i32)
        requires
            self.wf(),
        ensures
            n == accumulated(self@, depth),
    {
        proof {
            self.lemma_wf();
        }
        let mut depth = depth;
        if self.data_length == 0 || depth < 0 {
            0
        } else {
            if depth > self.depth {
                depth = self.depth;
            }
            let ghost fs = self.scopes@;
            let ghost d0 = depth as int;
            let mut accumulated_count: i32 = 0;
            let mut offset: usize = 0;
            let ghost mut k: int = 0;
            assert(fs.take(0) =~= Seq::<Seq<(i32, i32)>>::empty());
            while depth != 0
                invariant
                    self.wf(),
                    fs == self.scopes@,
                    0 <= d0 <= fs.len(),
                    0 <= depth,
                    0 <= k,
                    k + depth == d0,
                    offset == layout(fs.take(k)).len(),
                    accumulated_count == total(fs.take(k)),
                    layout(fs).len() == self.data_length,
                    total(fs) <= NS_LIMIT / 2,
                    forall|j: int| 0 <= j < self.data_length ==> self.data@[j] == #[trigger] layout(fs)[j],
                decreases depth,
            {
                proof {
                    lemma_frame_at(fs, k);
                    assert(layout(fs)[offset + 0] == frame_words(fs[k])[0]);
                }
                depth = depth - 1;
                let count = self.data[offset];
                accumulated_count = accumulated_count + count;
                offset = offset + 2 + (count as usize) * 2;
                proof {
                    k = k + 1;
                }
            }
            proof {
                if d0 == fs.len() {
                    assert(fs.take(d0) =~= fs);
                }
            }
            accumulated_count
        }
    }

    /// Declares `(prefix, uri)` in the innermost scope, opening one if there is none.
    pub fn push(&mut self, prefix: i32, uri: i32)
        requires
            old(self).wf(),
            size(old(self)@) + 4 <= NS_LIMIT,
        ensures
            final(self).wf(),
            final(self)@ == pushed(old(self)@, prefix, uri),
    {
        if self.depth == 0 {
            self.increase_depth();
        }
        self.ensure_data_capacity(2);
        proof {
            self.lemma_wf();
        }
        let ghost fs = self.scopes@;
        let ghost top = fs.last();
        let ghost base = fs.drop_last();
        proof {
            lemma_layout_len(base);
            lemma_layout_len(fs);
            assert(layout(fs) == layout(base) + frame_words(top));
            assert(layout(fs)[self.data_length - 1] == frame_words(top).last());
        }
        let offset = self.data_length - 1;
        let count = self.data[offset];
        let start = offset - 1 - (count as usize) * 2;
        assert(start == layout(base).len());
        let ghost old_data = self.data@;
        let ghost dl = self.data_length as int;
        self.data.set(start, count + 1);
        self.data.set(offset, prefix);
        self.data.set(offset + 1, uri);
        self.data.set(offset + 2, count + 1);
        self.data_length = self.data_length + 2;
        self.count = self.count + 1;
        proof {
            let ntop = top.push((prefix, uri));
            let nfs = fs.update(fs.len() - 1, ntop);
            let b = start as int;
            let c = top.len() as int;
            lemma_frame_words(top);
            lemma_frame_words(ntop);
            lemma_frame_words_push(top, (prefix, uri));
            assert(nfs.drop_last() =~= base);
            assert(layout(nfs) == layout(base) + frame_words(ntop));
            assert forall|i: int| 0 <= i < dl + 2 implies #[trigger] self.data@[i] == (layout(base)
                + frame_words(ntop))[i] by {
                if i < b {
                    assert(old_data[i] == layout(fs)[i]);
                } else if b < i < dl - 1 {
                    assert(old_data[i] == layout(fs)[i]);
                    assert(frame_words(ntop)[i - b] == frame_words(top)[i - b]);
                } else if i == dl - 1 {
                    assert(i - b == 1 + 2 * c);
                } else if i == dl {
                    assert(i - b == 2 + 2 * c);
                }
            }
            assert(self.data@.subrange(0, self.data_length as int) =~= layout(nfs));
            assert(flatten(nfs) =~= flatten(fs) + seq![(prefix, uri)]);
            self.scopes = Ghost(nfs);
        }
    }

    /// Removes the last declaration of the innermost scope; false when it has none.
    pub fn pop(&mut self) -> (removed: bool)
        requires
            old(self).wf(),
        ensures
            final(self).wf(),
            removed == can_pop(old(self)@),
            final(self)@ == popped(old(self)@),
    {
        proof {
            self.lemma_wf();
        }
        if self.data_length == 0 {
            false
        } else {
            let ghost fs = self.scopes@;
            let ghost top = fs.last();
            let ghost base = fs.drop_last();
            proof {
                lemma_layout_len(base);
                assert(layout(fs) == layout(base) + frame_words(top));
                assert(layout(fs)[self.data_length - 1] == frame_words(top).last());
            }
            let mut offset = self.data_length - 1;
            let mut count = self.data[offset];
            if count == 0 {
                false
            } else {
                let ghost old_data = self.data@;
                let ghost dl = self.data_length as int;
                count = count - 1;
                offset = offset - 2;
                self.data.set(offset, count);
                offset = offset - (1 + (count as usize) * 2);
                assert(offset == layout(base).len());
                self.data.set(offset, count);
                self.data_length = self.data_length - 2;
                self.count = self.count - 1;
                proof {
                    let ntop = top.drop_last();
                    let nfs = fs.update(fs.len() - 1, ntop);
                    let b = offset as int;
                    let c = ntop.len() as int;
                    assert(ntop.push(top.last()) =~= top);
                    lemma_frame_words(top);
                    lemma_frame_words(ntop);
                    lemma_frame_words_push(ntop, top.last());
                    assert(nfs.drop_last() =~= base);
                    assert(layout(nfs) == layout(base) + frame_words(ntop));
                    assert forall|i: int| 0 <= i < dl - 2 implies #[trigger] self.data@[i] == (layout(base)
                        + frame_words(ntop))[i] by {
                        if i < b {
                            assert(old_data[i] == layout(fs)[i]);
                        } else if b < i < b + 1 + 2 * c {
                            assert(old_data[i] == layout(fs)[i]);
                            assert(frame_words(top)[i - b] == frame_words(ntop)[i - b]);
                        }
                    }
                    assert(self.data@.subrange(0, self.data_length as int) =~= layout(nfs));
                    assert(flatten(fs) =~= flatten(nfs) + seq![top.last()]);
                    self.scopes = Ghost(nfs);
                }
                true
            }
        }
    }

    /// The prefix of the declaration at `index`, outermost first; -1 when there is none.
    pub fn get_prefix(&self, index: i32) -> (p: i32)
        requires
            self.wf(),
        ensures
            p == entry_at(self@, index, true),
    {
        self.get(index, true)
    }

    /// The uri of the declaration at `index`, outermost first; -1 when there is none.
    pub fn get_uri(&self, index: i32) -> (u: i32)
        requires
            self.wf(),
        ensures
            u == entry_at(self@, index, false),
    {
        self.get(index, false)
    }

    /// The prefix of the latest declaration of the uri `index`; -1 when there is none.
    pub fn find_prefix(&self, index: i32) -> (p: i32)
        requires
            self.wf(),
        ensures
            p == lookup(flatten(self@), index, false),
    {
        self.find(index, false)
    }

    /// The number of open scopes.
    pub fn get_depth(&self) -> (d: i32)
        requires
            self.wf(),
        ensures
            d == self@.len(),
    {
        self.depth
    }

    /// Opens an empty scope.
    pub fn increase_depth(&mut self)
        requires
            old(self).wf(),
            size(old(self)@) + 2 <= NS_LIMIT,
        ensures
            final(self).wf(),
            final(self)@ == old(self)@.push(Seq::empty()),
    {
        self.ensure_data_capacity(2);
        proof {
            self.lemma_wf();
        }
        let offset = self.data_length;
        self.data.set(offset, 0);
        self.data.set(offset + 1, 0);
        self.data_length = self.data_length + 2;
        self.depth = self.depth + 1;
        proof {
            let fs = self.scopes@;
            let nfs = fs.push(Seq::<(i32, i32)>::empty());
            assert(nfs.drop_last() =~= fs);
            assert(flatten(nfs) =~= flatten(fs));
            assert(self.data@.subrange(0, self.data_length as int) =~= layout(fs) + frame_words(Seq::<(i32, i32)>::empty()));
            self.scopes = Ghost(nfs);
        }
    }

    /// Closes the innermost scope with its declarations, unless it is the outermost one.
    pub fn decrease_depth(&mut self)
        requires
            old(self).wf(),
        ensures
            final(self).wf(),
            final(self)@ == shallowed(old(self)@),
    {
        proof {
            self.lemma_wf();
        }
        if self.data_length != 0 {
            let ghost fs = self.scopes@;
            let ghost top = fs.last();
            let ghost base = fs.drop_last();
            proof {
                lemma_layout_len(base);
                assert(layout(fs) == layout(base) + frame_words(top));
                assert(layout(fs)[self.data_length - 1] == frame_words(top).last());
            }
            let offset = self.data_length - 1;
            let count = self.data[offset];
            if (offset - 1 - (count as usize) * 2) != 0 {
                self.data_length = self.data_length - (2 + (count as usize) * 2);
                self.count = self.count - count;
                self.depth = self.depth - 1;
                proof {
                    assert(self.data@.subrange(0, self.data_length as int) =~= layout(base));
                    assert(flatten(fs) == flatten(base) + top);
                    self.scopes = Ghost(base);
                }
            } else {
                proof {
                    assert(base.len() == 0) by {
                        if base.len() > 0 {
                            lemma_layout_len(base);
                        }
                    }
                }
            }
        }
    }

    /// Makes room for more than `capacity` words past the stored scopes.
    fn ensure_data_capacity(&mut self, capacity: usize)
        requires
            old(self).wf(),
            capacity <= 2,
        ensures
            final(self).wf(),
            final(self)@ == old(self)@,
            final(self).data_length == old(self).data_length,
            final(self).data@.len() - final(self).data_length > capacity,
    {
        let available = self.data.len() - self.data_length;
        if available > capacity {
            return ;
        }
        let new_length = (self.data.len() + available) * 2;
        let ghost prefix = self.data@.subrange(0, self.data_length as int);
        while self.data.len() < new_length
            invariant
                self.data_length == old(self).data_length,
                self.count == old(self).count,
                self.depth == old(self).depth,
                self.scopes == old(self).scopes,
                self.data_length + capacity < new_length,
                old(self).data@.len() <= self.data@.len(),
                3 <= old(self).data@.len(),
                self.data_length <= self.data@.len() <= new_length,
                new_length <= 2 * NS_LIMIT + 64,
                self.data@.subrange(0, self.data_length as int) == prefix,
            decreases new_length - self.data@.len(),
        {
            self.data.push(0);
            assert(self.data@.subrange(0, self.data_length as int) =~= prefix);
        }
    }

    /// The other half of the latest declaration whose prefix (if `prefix`) or
    /// uri (otherwise) is `index`; -1 when there is none.
    pub fn find(&self, index: i32, prefix: bool) -> (r: i32)
        requires
            self.wf(),
        ensures
            r == lookup(flatten(self@), index, prefix),
    {
        proof {
            self.lemma_wf();
        }
        if self.data_length == 0 {
            proof {
                lemma_layout_len(self.scopes@);
            }
            -1
        } else {
            let ghost fs = self.scopes@;
            let ghost all = flatten(fs);
            let mut offset: i32 = self.data_length as i32 - 1;
            let mut i = self.depth;
            let ghost mut j: int = total(fs) as int;
            proof {
                assert(fs.take(fs.len() as int) =~= fs);
                lemma_layout_len(fs);
                assert(all.take(j) =~= all);
            }
            while i != 0
                invariant
                    self.wf(),
                    fs == self.scopes@,
                    all == flatten(fs),
                    0 <= i <= fs.len(),
                    offset == layout(fs.take(i as int)).len() - 1,
                    j == total(fs.take(i as int)),
                    j <= all.len(),
                    lookup(all, index, prefix) == lookup(all.take(j), index, prefix),
                    layout(fs).len() == self.data_length,
                    forall|k: int| 0 <= k < self.data_length ==> self.data@[k] == #[trigger] layout(fs)[k],
                decreases i,
            {
                let ghost f = (i - 1) as int;
                proof {
                    lemma_frame_at(fs, f);
                    let c = fs[f].len() as int;
                    assert(layout(fs)[layout(fs.take(f)).len() + (1 + 2 * c)] == frame_words(fs[f])[1 + 2 * c]);
                }
                let mut count = self.data[offset as usize];
                offset = offset - 2;
                while count != 0
                    invariant
                        self.wf(),
                        fs == self.scopes@,
                        all == flatten(fs),
                        0 <= f < fs.len(),
                        0 <= count <= fs[f].len(),
                        offset == layout(fs.take(f)).len() + 2 * count - 1,
                        j == total(fs.take(f)) + count,
                        j <= all.len(),
                        lookup(all, index, prefix) == lookup(all.take(j), index, prefix),
                        layout(fs).len() == self.data_length,
                        layout(fs.take(f + 1)).len() == layout(fs.take(f)).len() + 2 + 2 * fs[f].len(),
                        layout(fs.take(f + 1)).len() <= layout(fs).len(),
                        forall|k: int| 0 <= k < self.data_length ==> self.data@[k] == #[trigger] layout(fs)[k],
                        forall|jj: int|
                            0 <= jj < 2 + 2 * fs[f].len() ==> #[trigger] layout(fs)[layout(fs.take(f)).len() + jj]
                                == frame_words(fs[f])[jj],
                        forall|jj: int|
                            0 <= jj < fs[f].len() ==> #[trigger] all[total(fs.take(f)) + jj] == fs[f][jj],
                    decreases count,
                {
                    let ghost base = layout(fs.take(f)).len() as int;
                    proof {
                        let q = count - 1;
                        lemma_frame_words(fs[f]);
                        assert(layout(fs)[base + (1 + 2 * q)] == frame_words(fs[f])[1 + 2 * q]);
                        assert(layout(fs)[base + (2 + 2 * q)] == frame_words(fs[f])[2 + 2 * q]);
                        assert(all[total(fs.take(f)) + q] == fs[f][q]);
                        assert(all.take(j).last() == all[j - 1]);
                        assert(all.take(j).drop_last() =~= all.take(j - 1));
                    }
                    let p = self.data[offset as usize];
                    let u = self.data[(offset as usize + 1)];
                    if prefix {
                        if p == index {
                            return u;
                        }
                    } else {
                        if u == index {
                            return p;
                        }
                    }
                    count = count - 1;
                    offset = offset - 2;
                    proof {
                        j = j - 1;
                    }
                }
                i = i - 1;
            }
            proof {
                assert(all.take(0) =~= Seq::<(i32, i32)>::empty());
            }
            -1
        }
    }

    /// The prefix (if `prefix`) or uri of the declaration at `index`, counting
    /// from the outermost scope; -1 when there is none.
    pub fn get(&self, index: i32, prefix: bool) -> (r: i32)
        requires
            self.wf(),
        ensures
            r == entry_at(self@, index, prefix),
    {
        proof {
            self.lemma_wf();
        }
        let mut rem = index;
        if self.data_length == 0 || rem < 0 {
            proof {
                lemma_layout_len(self.scopes@);
            }
            -1
        } else {
            let ghost fs = self.scopes@;
            let ghost index0 = index as int;
            let mut offset: usize = 0;
            let mut i = self.depth;
            let ghost mut k: int = 0;
            assert(fs.take(0) =~= Seq::<Seq<(i32, i32)>>::empty());
            while i != 0
                invariant
                    self.wf(),
                    fs == self.scopes@,
                    0 <= k <= fs.len(),
                    k + i == fs.len(),
                    offset == layout(fs.take(k)).len(),
                    rem == index0 - total(fs.take(k)),
                    rem >= 0,
                    index0 == index,
                    layout(fs).len() == self.data_length,
                    total(fs) <= NS_LIMIT / 2,
                    forall|j: int| 0 <= j < self.data_length ==> self.data@[j] == #[trigger] layout(fs)[j],
                decreases i,
            {
                proof {
                    lemma_frame_at(fs, k);
                    lemma_frame_words(fs[k]);
                    assert(layout(fs)[offset + 0] == frame_words(fs[k])[0]);
                }
                i = i - 1;
                let count = self.data[offset] as i32;
                if rem >= count {
                    rem = rem - count;
                    offset = offset + (2 + count * 2) as usize;
                    proof {
                        k = k + 1;
                    }
                    continue;
                }
                proof {
                    let q = rem as int;
                    lemma_frame_words(fs[k]);
                    assert(layout(fs)[offset + (1 + 2 * q)] == frame_words(fs[k])[1 + 2 * q]);
                    assert(layout(fs)[offset + (2 + 2 * q)] == frame_words(fs[k])[2 + 2 * q]);
                    assert(flatten(fs)[total(fs.take(k)) + q] == fs[k][q]);
                    assert(total(fs.take(k)) + q == index0);
                    assert(index0 < total(fs));
                }
                offset = offset + (1 + rem * 2) as usize;
                if !prefix {
                    offset = offset + 1;
                }
                return self.data[offset] as i32;
            }
            proof {
                assert(fs.take(k) =~= fs);
            }
            -1
        }
    }
}

} // verus!
