use vstd::prelude::*;
use crate::text::{chars_of, push_char, opt_text};

verus! {

/// The lines of `s`, split at each CR LF (a text without one is one line).
pub open spec fn lines(s: Seq<char>) -> Seq<Seq<char>>
    decreases s.len(),
{
    if s.len() == 0 {
        seq![Seq::empty()]
    } else if s.len() >= 2 && s[s.len() - 2] == '\r' && s[s.len() - 1] == '\n' {
        lines(s.subrange(0, s.len() - 2)).push(Seq::empty())
    } else {
        let init = lines(s.drop_last());
        init.update(init.len() - 1, init.last().push(s.last()))
    }
}

/// Whether `pat` occurs in `s` at index `i`.
pub open spec fn occurs_at(s: Seq<char>, pat: Seq<char>, i: int) -> bool {
    0 <= i && i + pat.len() <= s.len() && s.subrange(i, i + pat.len()) == pat
}

/// Whether `pat` occurs in `s`.
pub open spec fn occurs_in(s: Seq<char>, pat: Seq<char>) -> bool {
    exists|i: int| occurs_at(s, pat, i)
}

/// `s` with every occurrence of `pat` removed, taken from left to right.
pub open spec fn remove_all(s: Seq<char>, pat: Seq<char>) -> Seq<char>
    decreases s.len(),
{
    if s.len() == 0 || pat.len() == 0 {
        s
    } else if occurs_at(s, pat, 0) {
        remove_all(s.subrange(pat.len() as int, s.len() as int), pat)
    } else {
        seq![s[0]] + remove_all(s.subrange(1, s.len() as int), pat)
    }
}

/// The last of `ls` that holds `code`.
pub open spec fn last_code_line(ls: Seq<Seq<char>>, code: Seq<char>) -> Option<Seq<char>>
    decreases ls.len(),
{
    if ls.len() == 0 {
        None
    } else if occurs_in(ls.last(), code) {
        Some(ls.last())
    } else {
        last_code_line(ls.drop_last(), code)
    }
}

/// The last of `ls` that holds `name` but not `code`.
pub open spec fn last_name_line(ls: Seq<Seq<char>>, code: Seq<char>, name: Seq<char>) -> Option<Seq<char>>
    decreases ls.len(),
{
    if ls.len() == 0 {
        None
    } else if !occurs_in(ls.last(), code) && occurs_in(ls.last(), name) {
        Some(ls.last())
    } else {
        last_name_line(ls.drop_last(), code, name)
    }
}

/// `o` with every `android:` removed.
pub open spec fn without_android(o: Option<Seq<char>>) -> Option<Seq<char>> {
    match o {
        Some(t) => Some(remove_all(t, "android:"@)),
        None => None,
    }
}

proof fn lemma_lines_nonempty(s: Seq<char>)
    ensures
        lines(s).len() >= 1,
    decreases s.len(),
{
    if s.len() >= 2 && s[s.len() - 2] == '\r' && s[s.len() - 1] == '\n' {
        lemma_lines_nonempty(s.subrange(0, s.len() - 2));
    } else if s.len() > 0 {
        lemma_lines_nonempty(s.drop_last());
    }
}

/// Whether `pat` occurs in `s`.
fn occurs(s: &Vec<char>, pat: &Vec<char>) -> (r: bool)
    ensures
        r == occurs_in(s@, pat@),
{
    let n = s.len();
    let m = pat.len();
    if m > n {
        assert(!occurs_in(s@, pat@));
        return false;
    }
    let mut i: usize = 0;
    while i <= n - m
        invariant
            n == s@.len(),
            m == pat@.len(),
            m <= n,
            i <= n - m + 1,
            forall|j: int| 0 <= j < i ==> !occurs_at(s@, pat@, j),
        decreases n - m + 1 - i,
    {
        let mut k: usize = 0;
        let mut same = true;
        while k < m
            invariant
                n == s@.len(),
                m == pat@.len(),
                i + m <= n,
                k <= m,
                same == (forall|t: int| 0 <= t < k ==> s@[i + t] == pat@[t]),
            decreases m - k,
        {
            if s[i + k] != pat[k] {
                same = false;
            }
            k = k + 1;
        }
        if same {
            assert(s@.subrange(i as int, i + m) =~= pat@);
            assert(occurs_at(s@, pat@, i as int));
            return true;
        }
        assert(!occurs_at(s@, pat@, i as int)) by {
            if occurs_at(s@, pat@, i as int) {
                assert forall|t: int| 0 <= t < m implies s@[i + t] == pat@[t] by {
                    assert(s@.subrange(i as int, i + m)[t] == s@[i + t]);
                }
            }
        }
        i = i + 1;
    }
    assert(!occurs_in(s@, pat@)) by {
        if occurs_in(s@, pat@) {
            let j = choose|j: int| occurs_at(s@, pat@, j);
            assert(j < i);
        }
    }
    false
}

/// `s` with every occurrence of `pat` removed, as a string.
fn remove_all_text(s: &Vec<char>, pat: &Vec<char>) -> (r: String)
    ensures
        r@ == remove_all(s@, pat@),
{
    let n = s.len();
    let m = pat.len();
    let mut out = String::new();
    let mut i: usize = 0;
    assert(s@.subrange(0, n as int) =~= s@);
    while i < n
        invariant
            n == s@.len(),
            m == pat@.len(),
            i <= n,
            out@ + remove_all(s@.subrange(i as int, n as int), pat@) == remove_all(s@, pat@),
        decreases n - i,
    {
        let rest = Ghost(s@.subrange(i as int, n as int));
        let mut matched = m > 0 && m <= n - i;
        let mut k: usize = 0;
        if matched {
            while k < m
                invariant
                    n == s@.len(),
                    m == pat@.len(),
                    i + m <= n,
                    k <= m,
                    matched == (forall|t: int| 0 <= t < k ==> s@[i + t] == pat@[t]),
                decreases m - k,
            {
                if s[i + k] != pat[k] {
                    matched = false;
                }
                k = k + 1;
            }
        }
        proof {
            if m > 0 && m <= n - i {
                if matched {
                    assert(rest@.subrange(0, m as int) =~= pat@);
                } else {
                    if occurs_at(rest@, pat@, 0) {
                        assert forall|t: int| 0 <= t < m implies s@[i + t] == pat@[t] by {
                            assert(rest@.subrange(0, m as int)[t] == s@[i + t]);
                        }
                    }
                }
            }
        }
        if matched {
            assert(rest@.subrange(m as int, rest@.len() as int) =~= s@.subrange(i + m, n as int));
            i = i + m;
        } else {
            let ghost before = out@;
            push_char(&mut out, s[i]);
            if m == 0 {
                assert(remove_all(rest@, pat@) == rest@);
                assert(rest@.subrange(1, rest@.len() as int) =~= s@.subrange(i + 1, n as int));
                assert(before + rest@ =~= out@ + s@.subrange(i + 1, n as int));
                proof {
                    lemma_remove_all_empty(s@.subrange(i + 1, n as int), pat@);
                }
            } else {
                assert(rest@.subrange(1, rest@.len() as int) =~= s@.subrange(i + 1, n as int));
                assert(before + remove_all(rest@, pat@) =~= out@ + remove_all(s@.subrange(i + 1, n as int), pat@));
            }
            i = i + 1;
        }
    }
    assert(s@.subrange(n as int, n as int) =~= Seq::<char>::empty());
    assert(out@ + Seq::<char>::empty() =~= out@);
    out
}

proof fn lemma_remove_all_empty(s: Seq<char>, pat: Seq<char>)
    requires
        pat.len() == 0,
    ensures
        remove_all(s, pat) == s,
{
}

/// The string of the characters of `v`.
fn text_of(v: &Vec<char>) -> (t: String)
    ensures
        t@ == v@,
{
    let mut t = String::new();
    let mut i: usize = 0;
    while i < v.len()
        invariant
            i <= v@.len(),
            t@ == v@.subrange(0, i as int),
        decreases v@.len() - i,
    {
        push_char(&mut t, v[i]);
        i = i + 1;
        assert(t@ =~= v@.subrange(0, i as int));
    }
    assert(v@.subrange(0, v@.len() as int) =~= v@);
    t
}

/// The version code line and the version name line of a rendered manifest,
/// each with `android:` removed: the last line that holds `versionCode`, and
/// the last other line that holds `versionName`.
pub fn version_lines(xml: &str) -> (r: (Option<String>, Option<String>))
    ensures
        opt_text(r.0) == without_android(last_code_line(lines(xml@), "versionCode"@)),
        opt_text(r.1) == without_android(last_name_line(lines(xml@), "versionCode"@, "versionName"@)),
{
    let s = chars_of(xml);
    let code_pat = chars_of("versionCode");
    let name_pat = chars_of("versionName");
    let android = chars_of("android:");
    let ghost code = "versionCode"@;
    let ghost name = "versionName"@;
    let n = s.len();
    let mut code_line: Option<Vec<char>> = None;
    let mut name_line: Option<Vec<char>> = None;
    let mut current: Vec<char> = Vec::new();
    let mut i: usize = 0;
    proof {
        lemma_lines_nonempty(s@.subrange(0, 0));
        assert(s@.subrange(0, 0) =~= Seq::<char>::empty());
    }
    while i < n
        invariant
            n == s@.len(),
            i <= n,
            code_pat@ == code,
            name_pat@ == name,
            lines(s@.subrange(0, i as int)).len() >= 1,
            current@ == lines(s@.subrange(0, i as int)).last(),
            last_code_line(lines(s@.subrange(0, i as int)).drop_last(), code) == match code_line {
                Some(v) => Some(v@),
                None => None::<Seq<char>>,
            },
            last_name_line(lines(s@.subrange(0, i as int)).drop_last(), code, name) == match name_line {
                Some(v) => Some(v@),
                None => None::<Seq<char>>,
            },
        decreases n - i,
    {
        let ghost pre = s@.subrange(0, i as int);
        let ghost post = s@.subrange(0, i + 1);
        let c = s[i];
        let cl = current.len();
        if c == '\n' && cl > 0 && current[cl - 1] == '\r' {
            proof {
                assert(pre.len() >= 1);
                lemma_lines_nonempty(post.subrange(0, post.len() - 2));
                assert(pre.last() == '\r') by {
                    lemma_last_char(pre);
                }
                assert(post.subrange(0, post.len() - 2) =~= pre.drop_last());
                assert(post[post.len() - 2] == pre.last());
                assert(lines(post) == lines(pre.drop_last()).push(Seq::empty()));
                lemma_lines_pop_cr(pre);
            }
            current.pop();
            let ghost line = current@;
            if occurs(&current, &code_pat) {
                code_line = Some(current);
            } else if occurs(&current, &name_pat) {
                name_line = Some(current);
            }
            current = Vec::new();
            proof {
                let ls = lines(post);
                assert(ls.drop_last() == lines(pre.drop_last()));
                let ls0 = lines(pre.drop_last());
                assert(ls0.last() == line);
                assert(ls0.drop_last() == lines(pre).drop_last());
            }
        } else {
            proof {
                lemma_lines_nonempty(pre);
                assert(post.drop_last() =~= pre);
                assert(post.last() == c);
                if post.len() >= 2 && post[post.len() - 2] == '\r' && c == '\n' {
                    lemma_last_char(pre);
                }
                let ls = lines(post);
                assert(ls.drop_last() =~= lines(pre).drop_last());
            }
            current.push(c);
        }
        i = i + 1;
    }
    proof {
        assert(s@.subrange(0, n as int) =~= s@);
    }
    let ghost ls = lines(s@);
    let ghost last = current@;
    if occurs(&current, &code_pat) {
        code_line = Some(current);
    } else if occurs(&current, &name_pat) {
        name_line = Some(current);
    }
    proof {
        assert(ls.drop_last().push(last) =~= ls);
        assert(ls.drop_last() == ls.drop_last().push(last).drop_last());
    }
    let code_text = match code_line {
        Some(v) => Some(remove_all_text(&v, &android)),
        None => None,
    };
    let name_text = match name_line {
        Some(v) => Some(remove_all_text(&v, &android)),
        None => None,
    };
    (code_text, name_text)
}

/// The last line of a text that ends with a character other than a line
/// feed after a carriage return ends with that character.
proof fn lemma_last_char(s: Seq<char>)
    requires
        s.len() >= 1,
        lines(s).len() >= 1,
    ensures
        !(s.len() >= 2 && s[s.len() - 2] == '\r' && s[s.len() - 1] == '\n') ==> lines(s).last().len() >= 1
            && lines(s).last().last() == s.last(),
{
    if !(s.len() >= 2 && s[s.len() - 2] == '\r' && s[s.len() - 1] == '\n') {
        lemma_lines_nonempty(s.drop_last());
    }
}

/// When a text ends with a carriage return, its last line is that of the
/// text without it, followed by the carriage return.
proof fn lemma_lines_pop_cr(s: Seq<char>)
    requires
        s.len() >= 1,
        s.last() == '\r',
    ensures
        lines(s).len() == lines(s.drop_last()).len(),
        lines(s).last() == lines(s.drop_last()).last().push('\r'),
        lines(s).drop_last() == lines(s.drop_last()).drop_last(),
{
    lemma_lines_nonempty(s.drop_last());
    let init = lines(s.drop_last());
    assert(init.update(init.len() - 1, init.last().push('\r')).drop_last() =~= init.drop_last());
}

} // verus!
