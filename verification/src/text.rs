//! Text helpers: white space, words, trimming and splitting at a character.
use vstd::prelude::*;

verus! {

/// The characters with the Unicode property White_Space, which
/// `char::is_whitespace` tests for.
pub open spec fn is_white(c: char) -> bool {
    ||| ('\u{9}' <= c && c <= '\u{d}')
    ||| c == ' '
    ||| c == '\u{85}'
    ||| c == '\u{a0}'
    ||| c == '\u{1680}'
    ||| ('\u{2000}' <= c && c <= '\u{200a}')
    ||| c == '\u{2028}'
    ||| c == '\u{2029}'
    ||| c == '\u{202f}'
    ||| c == '\u{205f}'
    ||| c == '\u{3000}'
}

/// Whether `c` is white space (see `is_white`).
pub fn is_white_char(c: char) -> (r: bool)
    ensures
        r == is_white(c),
{
    ('\u{9}' <= c && c <= '\u{d}') || c == ' ' || c == '\u{85}' || c == '\u{a0}' || c == '\u{1680}' || ('\u{2000}'
        <= c && c <= '\u{200a}') || c == '\u{2028}' || c == '\u{2029}' || c == '\u{202f}' || c == '\u{205f}' || c
        == '\u{3000}'
}

/// The words of `s`: its longest runs of characters that are not white
/// space, in order.
pub open spec fn words(s: Seq<char>) -> Seq<Seq<char>>
    decreases s.len(),
{
    if s.len() == 0 {
        Seq::empty()
    } else {
        let p = words(s.drop_last());
        let c = s.last();
        if is_white(c) {
            p
        } else if s.len() >= 2 && !is_white(s[s.len() - 2]) {
            p.drop_last().push(p.last().push(c))
        } else {
            p.push(seq![c])
        }
    }
}

pub open spec fn strings_view(v: Seq<String>) -> Seq<Seq<char>> {
    v.map_values(|x: String| x@)
}

/// A text that ends in a character that is not white space has a word.
pub proof fn lemma_words_last(s: Seq<char>)
    requires
        s.len() > 0,
        !is_white(s.last()),
    ensures
        words(s).len() > 0,
    decreases s.len(),
{
    if s.len() >= 2 && !is_white(s[s.len() - 2]) {
        assert(s.drop_last().last() == s[s.len() - 2]);
        lemma_words_last(s.drop_last());
    }
}

/// A text without white space is one word.
pub proof fn lemma_words_single(w: Seq<char>)
    requires
        w.len() > 0,
        forall|i: int| 0 <= i < w.len() ==> !is_white(#[trigger] w[i]),
    ensures
        words(w) == seq![w],
    decreases w.len(),
{
    if w.len() == 1 {
        assert(w.drop_last() =~= Seq::<char>::empty());
        assert(words(w.drop_last()) =~= Seq::<Seq<char>>::empty());
        assert(seq![w.last()] =~= w);
        assert(words(w) == words(w.drop_last()).push(seq![w.last()]));
        assert(Seq::<Seq<char>>::empty().push(w) =~= seq![w]);
    } else {
        let p = w.drop_last();
        assert forall|i: int| 0 <= i < p.len() implies !is_white(#[trigger] p[i]) by {
            assert(p[i] == w[i]);
        }
        lemma_words_single(p);
        assert(!is_white(w[w.len() - 2]));
        assert(!is_white(w.last()));
        assert(p.push(w.last()) =~= w);
        assert(words(w) == words(p).drop_last().push(words(p).last().push(w.last())));
        assert(seq![p].drop_last().push(p.push(w.last())) =~= seq![w]);
    }
}

/// After white space, the words of what follows come after the words
/// before it.
pub proof fn lemma_words_join(p: Seq<char>, q: Seq<char>)
    requires
        p.len() == 0 || is_white(p.last()),
    ensures
        words(p + q) == words(p) + words(q),
    decreases q.len(),
{
    if q.len() == 0 {
        assert(p + q =~= p);
        assert(words(q) =~= Seq::<Seq<char>>::empty());
        assert(words(p) + words(q) =~= words(p));
    } else {
        let s = p + q;
        let c = q.last();
        assert(s.drop_last() =~= p + q.drop_last());
        assert(s.last() == c);
        lemma_words_join(p, q.drop_last());
        let wp = words(p);
        let wq = words(q.drop_last());
        if is_white(c) {
        } else if q.len() >= 2 && !is_white(q[q.len() - 2]) {
            assert(s[s.len() - 2] == q[q.len() - 2]);
            assert(q.drop_last().last() == q[q.len() - 2]);
            lemma_words_last(q.drop_last());
            assert((wp + wq).drop_last() =~= wp + wq.drop_last());
            assert((wp + wq).last() == wq.last());
            assert((wp + wq).drop_last().push((wp + wq).last().push(c)) =~= wp + wq.drop_last().push(wq.last().push(c)));
        } else {
            if q.len() == 1 && p.len() > 0 {
                assert(s[s.len() - 2] == p.last());
            }
            if q.len() >= 2 {
                assert(s[s.len() - 2] == q[q.len() - 2]);
            }
            assert((wp + wq).push(seq![c]) =~= wp + wq.push(seq![c]));
        }
    }
}

/// A word after a space is the last word of the text.
pub proof fn lemma_words_add_word(x: Seq<char>, w: Seq<char>)
    requires
        w.len() > 0,
        forall|i: int| 0 <= i < w.len() ==> !is_white(#[trigger] w[i]),
    ensures
        words(x + seq![' '] + w) == words(x).push(w),
{
    let xs = x + seq![' '];
    assert(xs.drop_last() =~= x);
    assert(is_white(xs.last()));
    assert(words(xs) == words(x));
    lemma_words_join(xs, w);
    lemma_words_single(w);
    assert(words(x) + seq![w] =~= words(x).push(w));
}

/// The words of `s` (see `words`), as `str::split_whitespace` gives them.
#[verifier::loop_isolation(false)]
pub fn split_words(s: &str) -> (r: Vec<String>)
    ensures
        strings_view(r@) == words(s@),
{
    let n = s.unicode_len();
    let mut done: Vec<String> = Vec::new();
    let mut in_run = false;
    let mut start: usize = 0;
    let mut i: usize = 0;
    while i < n
        invariant
            i <= n,
            n == s@.len(),
            in_run ==> {
                &&& start < i
                &&& words(s@.take(i as int)) == strings_view(done@).push(s@.subrange(start as int, i as int))
                &&& !is_white(s@[i - 1])
            },
            !in_run ==> {
                &&& words(s@.take(i as int)) == strings_view(done@)
                &&& (i == 0 || is_white(s@[i - 1]))
            },
        decreases n - i,
    {
        let c = s.get_char(i);
        let ghost prev = s@.take(i as int);
        proof {
            assert(s@.take(i + 1).drop_last() =~= prev);
            assert(s@.take(i + 1).last() == c);
            if i > 0 {
                assert(s@.take(i + 1)[i - 1] == s@[i - 1]);
            }
        }
        if is_white_char(c) {
            if in_run {
                let w = String::from_str(s.substring_char(start, i));
                let ghost before = done@;
                done.push(w);
                in_run = false;
                proof {
                    assert(strings_view(done@) =~= strings_view(before).push(w@));
                }
            }
        } else {
            if in_run {
                proof {
                    assert(s@.subrange(start as int, i as int).push(c) =~= s@.subrange(start as int, i + 1));
                    let p = words(prev);
                    assert(p.drop_last() =~= strings_view(done@));
                }
            } else {
                start = i;
                in_run = true;
                proof {
                    assert(s@.subrange(i as int, i + 1) =~= seq![c]);
                }
            }
        }
        i += 1;
    }
    if in_run {
        let w = String::from_str(s.substring_char(start, n));
        let ghost before = done@;
        done.push(w);
        proof {
            assert(strings_view(done@) =~= strings_view(before).push(w@));
        }
    }
    proof {
        assert(s@.take(n as int) =~= s@);
    }
    done
}


/// `s` without the characters that satisfy `p` at its start.
pub open spec fn skip_leading(s: Seq<char>, p: spec_fn(char) -> bool) -> Seq<char>
    decreases s.len(),
{
    if s.len() > 0 && p(s[0]) {
        skip_leading(s.skip(1), p)
    } else {
        s
    }
}

/// `s` without the characters that satisfy `p` at its end.
pub open spec fn skip_trailing(s: Seq<char>, p: spec_fn(char) -> bool) -> Seq<char>
    decreases s.len(),
{
    if s.len() > 0 && p(s.last()) {
        skip_trailing(s.drop_last(), p)
    } else {
        s
    }
}

/// `s` without the characters that satisfy `p` at either end.
pub open spec fn trim_by(s: Seq<char>, p: spec_fn(char) -> bool) -> Seq<char> {
    skip_trailing(skip_leading(s, p), p)
}

/// `s` without white space at either end, as `str::trim` gives it.
pub open spec fn trim_white(s: Seq<char>) -> Seq<char> {
    trim_by(s, |c: char| is_white(c))
}

/// `s` without double quotes at either end, as `str::trim_matches('"')`
/// gives it.
pub open spec fn trim_quotes(s: Seq<char>) -> Seq<char> {
    trim_by(s, |c: char| c == '"')
}

pub open spec fn trim_pred(quotes: bool) -> spec_fn(char) -> bool {
    if quotes {
        |c: char| c == '"'
    } else {
        |c: char| is_white(c)
    }
}

proof fn lemma_skip_leading(s: Seq<char>, p: spec_fn(char) -> bool, i: int)
    requires
        0 <= i <= s.len(),
        forall|j: int| 0 <= j < i ==> p(#[trigger] s[j]),
        i == s.len() || !p(s[i]),
    ensures
        skip_leading(s, p) == s.subrange(i, s.len() as int),
    decreases i,
{
    if i == 0 {
        assert(s.subrange(0, s.len() as int) =~= s);
    } else {
        let t = s.skip(1);
        assert forall|j: int| 0 <= j < i - 1 implies p(#[trigger] t[j]) by {
            assert(t[j] == s[j + 1]);
        }
        if i < s.len() {
            assert(t[i - 1] == s[i]);
        }
        lemma_skip_leading(t, p, i - 1);
        assert(t.subrange(i - 1, t.len() as int) =~= s.subrange(i, s.len() as int));
    }
}

proof fn lemma_skip_trailing(s: Seq<char>, p: spec_fn(char) -> bool, k: int)
    requires
        0 <= k <= s.len(),
        forall|j: int| k <= j < s.len() ==> p(#[trigger] s[j]),
        k == 0 || !p(s[k - 1]),
    ensures
        skip_trailing(s, p) == s.subrange(0, k),
    decreases s.len() - k,
{
    if k == s.len() {
        assert(s.subrange(0, k) =~= s);
    } else {
        let t = s.drop_last();
        assert forall|j: int| k <= j < t.len() implies p(#[trigger] t[j]) by {
            assert(t[j] == s[j]);
        }
        if k > 0 {
            assert(t[k - 1] == s[k - 1]);
        }
        lemma_skip_trailing(t, p, k);
        assert(t.subrange(0, k) =~= s.subrange(0, k));
    }
}

fn is_trimmed_char(c: char, quotes: bool) -> (r: bool)
    ensures
        r == trim_pred(quotes)(c),
{
    if quotes {
        c == '"'
    } else {
        is_white_char(c)
    }
}

#[verifier::loop_isolation(false)]
fn trimmed(s: &str, quotes: bool) -> (r: String)
    ensures
        r@ == trim_by(s@, trim_pred(quotes)),
{
    let ghost p = trim_pred(quotes);
    let n = s.unicode_len();
    let mut i: usize = 0;
    while i < n && is_trimmed_char(s.get_char(i), quotes)
        invariant
            i <= n,
            n == s@.len(),
            forall|j: int| 0 <= j < i ==> p(#[trigger] s@[j]),
        decreases n - i,
    {
        i += 1;
    }
    proof {
        lemma_skip_leading(s@, p, i as int);
    }
    let ghost lead = s@.subrange(i as int, n as int);
    let mut k: usize = n;
    while k > i && is_trimmed_char(s.get_char(k - 1), quotes)
        invariant
            i <= k <= n,
            n == s@.len(),
            forall|j: int| k <= j < n ==> p(#[trigger] s@[j]),
        decreases k,
    {
        k -= 1;
    }
    proof {
        assert forall|j: int| k - i <= j < lead.len() implies p(#[trigger] lead[j]) by {
            assert(lead[j] == s@[i + j]);
        }
        if k > i {
            assert(lead[k - i - 1] == s@[k - 1]);
        }
        lemma_skip_trailing(lead, p, k - i);
        assert(lead.subrange(0, k - i) =~= s@.subrange(i as int, k as int));
    }
    String::from_str(s.substring_char(i, k))
}

/// `s` without white space at either end (see `trim_white`).
pub fn trim_white_space(s: &str) -> (r: String)
    ensures
        r@ == trim_white(s@),
{
    let r = trimmed(s, false);
    proof {
        assert(trim_pred(false) == (|c: char| is_white(c)));
    }
    r
}

/// `s` without double quotes at either end (see `trim_quotes`).
pub fn trim_double_quotes(s: &str) -> (r: String)
    ensures
        r@ == trim_quotes(s@),
{
    let r = trimmed(s, true);
    proof {
        assert(trim_pred(true) == (|c: char| c == '"'));
    }
    r
}

/// The index of the first `c` in `s`, or -1.
pub open spec fn index_of(s: Seq<char>, c: char) -> int
    decreases s.len(),
{
    if s.len() == 0 {
        -1
    } else if index_of(s.drop_last(), c) >= 0 {
        index_of(s.drop_last(), c)
    } else if s.last() == c {
        s.len() - 1
    } else {
        -1
    }
}

/// `s` split at its first `c`: the text before it and the text after it.
pub open spec fn split_at_first(s: Seq<char>, c: char) -> Option<(Seq<char>, Seq<char>)> {
    let i = index_of(s, c);
    if i < 0 {
        None
    } else {
        Some((s.subrange(0, i), s.subrange(i + 1, s.len() as int)))
    }
}

pub proof fn lemma_index_of(s: Seq<char>, c: char)
    ensures
        -1 <= index_of(s, c) < s.len(),
        index_of(s, c) >= 0 ==> s[index_of(s, c)] == c,
        forall|j: int| 0 <= j < index_of(s, c) ==> #[trigger] s[j] != c,
        index_of(s, c) == -1 ==> forall|j: int| 0 <= j < s.len() ==> #[trigger] s[j] != c,
    decreases s.len(),
{
    if s.len() > 0 {
        lemma_index_of(s.drop_last(), c);
        assert forall|j: int| 0 <= j < s.len() - 1 implies s.drop_last()[j] == s[j] by {}
    }
}

/// `s` split at its first `c` (see `split_at_first`), as `str::split_once`
/// gives it.
#[verifier::loop_isolation(false)]
pub fn split_once_char(s: &str, c: char) -> (r: Option<(String, String)>)
    ensures
        match r {
            Some((a, b)) => split_at_first(s@, c) == Some((a@, b@)),
            None => split_at_first(s@, c) is None,
        },
{
    proof {
        lemma_index_of(s@, c);
    }
    let n = s.unicode_len();
    let mut i: usize = 0;
    while i < n
        invariant
            i <= n,
            n == s@.len(),
            forall|j: int| 0 <= j < i ==> #[trigger] s@[j] != c,
        decreases n - i,
    {
        if s.get_char(i) == c {
            let before = String::from_str(s.substring_char(0, i));
            let after = String::from_str(s.substring_char(i + 1, n));
            proof {
                let f = index_of(s@, c);
                if f > i as int {
                    assert(s@[i as int] != c);
                }
                if 0 <= f < i {
                    assert(s@[f] != c);
                }
            }
            return Some((before, after));
        }
        i += 1;
    }
    None
}


/// The title shown for a terminal: its window title, trimmed, where that is
/// not empty; with `flexible`, its current directory as well (`title (dir)`,
/// or the directory alone); else `fallback`.
pub open spec fn terminal_title(
    window_title: Option<Seq<char>>,
    directory: Option<Seq<char>>,
    fallback: Seq<char>,
    flexible: bool,
) -> Seq<char> {
    let shown = match window_title {
        Some(t) => if trim_white(t).len() > 0 {
            Some(trim_white(t))
        } else {
            None
        },
        None => None,
    };
    let shown = if flexible {
        match directory {
            Some(d) => match shown {
                Some(t) => Some(trim_white(t) + " ("@ + d + ")"@),
                None => Some(d),
            },
            None => shown,
        }
    } else {
        shown
    };
    match shown {
        Some(t) => t,
        None => fallback,
    }
}

/// The title shown for a terminal (see `terminal_title`), from the
/// terminal's window title and current directory.
pub fn format_terminal_title(
    window_title: Option<&str>,
    directory: Option<&str>,
    fallback: &str,
    flexible: bool,
) -> (r: String)
    ensures
        r@ == terminal_title(
            match window_title {
                Some(t) => Some(t@),
                None => None,
            },
            match directory {
                Some(d) => Some(d@),
                None => None,
            },
            fallback@,
            flexible,
        ),
{
    let mut shown: Option<String> = match window_title {
        Some(t) => {
            let trimmed = trim_white_space(t);
            if trimmed.unicode_len() == 0 {
                None
            } else {
                Some(trimmed)
            }
        },
        None => None,
    };
    if flexible {
        if let Some(dir) = directory {
            shown = match shown {
                Some(title) => {
                    let mut text = trim_white_space(title.as_str());
                    text.append(" (");
                    text.append(dir);
                    text.append(")");
                    Some(text)
                },
                None => Some(String::from_str(dir)),
            };
        }
    }
    match shown {
        Some(t) => t,
        None => String::from_str(fallback),
    }
}

} // verus!
