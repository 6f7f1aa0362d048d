//! The text that a dragged terminal carries: `key=value` words naming the
//! window, tab, inner tab and terminal it comes from.
use vstd::prelude::*;
use crate::ids::{InnerTabId, TabId, TerminalId, WindowId};
use crate::text::{is_white, index_of, lemma_index_of, lemma_words_single, lemma_words_add_word, skip_leading, skip_trailing, split_at_first, split_once_char, split_words, strings_view, trim_double_quotes, trim_quotes, words};

verus! {

/// What `uuid::Uuid::parse_str` makes of a text, as the 128-bit value of the
/// id (`Uuid::as_u128`), or `None` where it refuses the text.
pub uninterp spec fn parsed_uuid(s: Seq<char>) -> Option<u128>;

/// Calls `uuid::Uuid::parse_str` and hands out the 128-bit value
/// (`Uuid::as_u128`) of the id it parses, or `None` where it returns an
/// error. Which texts it accepts (simple, hyphenated, braced and URN forms
/// of the 32 hex digits) is not restated: the result is `parsed_uuid` of the
/// text, a function of the text alone.
#[verifier::external_body]
fn uuid_from_text(s: &str) -> (r: Option<u128>)
    ensures
        r == parsed_uuid(s@),
{
    match uuid::Uuid::parse_str(s) {
        Ok(u) => Some(u.as_u128()),
        Err(_) => None,
    }
}

/// The lower-case hex digit of `n`, for `n` below 16.
pub open spec fn hex_digit(n: u128) -> char {
    if n == 0 { '0' } else if n == 1 { '1' } else if n == 2 { '2' } else if n == 3 { '3' }
    else if n == 4 { '4' } else if n == 5 { '5' } else if n == 6 { '6' } else if n == 7 { '7' }
    else if n == 8 { '8' } else if n == 9 { '9' } else if n == 10 { 'a' } else if n == 11 { 'b' }
    else if n == 12 { 'c' } else if n == 13 { 'd' } else if n == 14 { 'e' } else { 'f' }
}

/// The `j`th of the 32 hex digits of `x`, the most significant first.
pub open spec fn uuid_digit(x: u128, j: int) -> char {
    hex_digit((x >> ((124 - 4 * j) as u128)) & 0xf)
}

/// The id `x` as `uuid::Uuid` writes it: its 32 hex digits in lower case,
/// the most significant first, in groups of 8, 4, 4, 4 and 12 joined by
/// hyphens.
pub open spec fn uuid_text(x: u128) -> Seq<char> {
    Seq::new(
        36,
        |i: int|
            if i == 8 || i == 13 || i == 18 || i == 23 {
                '-'
            } else {
                uuid_digit(
                    x,
                    if i < 8 {
                        i
                    } else if i < 13 {
                        i - 1
                    } else if i < 18 {
                        i - 2
                    } else if i < 23 {
                        i - 3
                    } else {
                        i - 4
                    },
                )
            },
    )
}

/// Calls `uuid::Uuid::from_u128` and writes the id with its `Display`, the
/// hyphenated lower-case form that `uuid`'s `fmt` module builds: the text
/// is `uuid_text(x)`, and `Uuid::parse_str`, which reads that form, gives
/// `x` back.
#[verifier::external_body]
fn uuid_to_text(x: u128) -> (r: String)
    ensures
        r@ == uuid_text(x),
        parsed_uuid(r@) == Some(x),
{
    uuid::Uuid::from_u128(x).to_string()
}

/// The text a dragged terminal carries: `term-move`, then `key=value` words
/// for the window, the tab, the inner tab where there is one, the terminal
/// and the place it was dragged from, one space apart.
pub open spec fn payload_text(
    window: WindowId,
    tab: TabId,
    inner: Option<InnerTabId>,
    terminal: TerminalId,
    src: Seq<char>,
) -> Seq<char> {
    "term-move window="@ + uuid_text(window.0) + " tab="@ + uuid_text(tab.0) + match inner {
        Some(i) => " inner="@ + uuid_text(i.0),
        None => Seq::<char>::empty(),
    } + " terminal="@ + uuid_text(terminal.0) + " src="@ + src
}

/// No character of `s` is white space or a double quote.
pub open spec fn plain_text(s: Seq<char>) -> bool {
    forall|i: int| 0 <= i < s.len() ==> !is_white(#[trigger] s[i]) && s[i] != '"'
}

/// The written form of an id is plain and has no equals sign.
proof fn lemma_uuid_text_plain(x: u128)
    ensures
        uuid_text(x).len() == 36,
        plain_text(uuid_text(x)),
        forall|i: int| 0 <= i < 36 ==> #[trigger] uuid_text(x)[i] != '=',
{
    assert forall|i: int| 0 <= i < 36 implies !is_white(#[trigger] uuid_text(x)[i]) && uuid_text(x)[i] != '"'
        && uuid_text(x)[i] != '=' by {}
}

/// A word `key=value` whose key has no equals sign splits at it.
proof fn lemma_split_key_value(k: Seq<char>, v: Seq<char>)
    requires
        forall|i: int| 0 <= i < k.len() ==> #[trigger] k[i] != '=',
    ensures
        split_at_first(k + seq!['='] + v, '=') == Some((k, v)),
{
    let s = k + seq!['='] + v;
    lemma_index_of(s, '=');
    let i = index_of(s, '=');
    assert(s[k.len() as int] == '=');
    if i < k.len() {
        assert(s[i] == k[i]);
    }
    assert(i == k.len());
    assert(s.subrange(0, i) =~= k);
    assert(s.subrange(i + 1, s.len() as int) =~= v);
}

/// A word with no equals sign does not split.
proof fn lemma_split_none(w: Seq<char>)
    requires
        forall|i: int| 0 <= i < w.len() ==> #[trigger] w[i] != '=',
    ensures
        split_at_first(w, '=') is None,
{
    lemma_index_of(w, '=');
}

/// A text without double quotes at its ends is its own unquoted form.
proof fn lemma_trim_quotes_plain(s: Seq<char>)
    requires
        s.len() > 0,
        s[0] != '"',
        s.last() != '"',
    ensures
        trim_quotes(s) == s,
{
    assert(skip_leading(s, |c: char| c == '"') == s);
    assert(skip_trailing(s, |c: char| c == '"') == s);
}

/// A drag payload as the specifications see it.
pub struct DragPayloadV {
    pub window: WindowId,
    pub tab: Option<TabId>,
    pub inner: Option<InnerTabId>,
    pub terminal: TerminalId,
    pub src: Option<Seq<char>>,
}

/// Where a dragged terminal comes from.
#[derive(Debug)]
pub struct DragPayload {
    pub window: WindowId,
    pub tab: Option<TabId>,
    pub inner: Option<InnerTabId>,
    pub terminal: TerminalId,
    pub src: Option<String>,
}

pub open spec fn opt_text(o: Option<String>) -> Option<Seq<char>> {
    match o {
        Some(s) => Some(s@),
        None => None,
    }
}

impl View for DragPayload {
    type V = DragPayloadV;

    open spec fn view(&self) -> DragPayloadV {
        DragPayloadV { window: self.window, tab: self.tab, inner: self.inner, terminal: self.terminal, src: opt_text(self.src) }
    }
}

/// The payload made of its parsed fields: there is one where the window and
/// the terminal are known.
pub open spec fn payload_of(
    window: Option<u128>,
    tab: Option<u128>,
    inner: Option<u128>,
    terminal: Option<u128>,
    src: Option<Seq<char>>,
) -> Option<DragPayloadV> {
    match (window, terminal) {
        (Some(w), Some(t)) => Some(
            DragPayloadV {
                window: WindowId(w),
                tab: match tab {
                    Some(x) => Some(TabId(x)),
                    None => None,
                },
                inner: match inner {
                    Some(x) => Some(InnerTabId(x)),
                    None => None,
                },
                terminal: TerminalId(t),
                src,
            },
        ),
        _ => None,
    }
}

/// The value of the last word `key=value` among `ws`.
pub open spec fn payload_value(ws: Seq<Seq<char>>, key: Seq<char>) -> Option<Seq<char>>
    decreases ws.len(),
{
    if ws.len() == 0 {
        None
    } else {
        match split_at_first(ws.last(), '=') {
            Some((k, v)) => if k == key {
                Some(v)
            } else {
                payload_value(ws.drop_last(), key)
            },
            None => payload_value(ws.drop_last(), key),
        }
    }
}

/// The id that the last word `key=value` of `s` gives, its value without
/// quotes at either end.
pub open spec fn payload_id(s: Seq<char>, key: Seq<char>) -> Option<u128> {
    match payload_value(words(s), key) {
        Some(v) => parsed_uuid(trim_quotes(v)),
        None => None,
    }
}

/// The payload that the text `s` describes.
pub open spec fn parse_payload(s: Seq<char>) -> Option<DragPayloadV> {
    payload_of(
        payload_id(s, "window"@),
        payload_id(s, "tab"@),
        payload_id(s, "inner"@),
        payload_id(s, "terminal"@),
        match payload_value(words(s), "src"@) {
            Some(v) => Some(trim_quotes(v)),
            None => None,
        },
    )
}

/// Set `field` to `value` where `key` is `name`.
fn set_if_key(field: &mut Option<String>, key: &String, value: &String, name: &str)
    ensures
        opt_text(*final(field)) == if key@ == name@ {
            Some(value@)
        } else {
            opt_text(*old(field))
        },
{
    if *key == String::from_str(name) {
        *field = Some(value.clone());
    }
}

impl DragPayload {
    /// The text a terminal dragged from window `window`, tab `tab` (and
    /// inner tab `inner`) out of the place `src` carries (see
    /// `payload_text`).
    pub fn write(
        window: WindowId,
        tab: TabId,
        inner: Option<InnerTabId>,
        terminal: TerminalId,
        src: &str,
    ) -> (r: String)
        ensures
            r@ == payload_text(window, tab, inner, terminal, src@),
            plain_text(src@) ==> parse_payload(r@) == Some(
                DragPayloadV { window, tab: Some(tab), inner, terminal, src: Some(src@) },
            ),
    {
        let window_text = uuid_to_text(window.0);
        let tab_text = uuid_to_text(tab.0);
        let terminal_text = uuid_to_text(terminal.0);
        let mut text = String::from_str("term-move window=");
        text.append(window_text.as_str());
        text.append(" tab=");
        text.append(tab_text.as_str());
        match inner {
            Some(i) => {
                let inner_text = uuid_to_text(i.0);
                text.append(" inner=");
                text.append(inner_text.as_str());
            },
            None => {},
        }
        text.append(" terminal=");
        text.append(terminal_text.as_str());
        text.append(" src=");
        text.append(src);
        proof {
            assert(text@ =~= payload_text(window, tab, inner, terminal, src@));
            if plain_text(src@) {
                law_payload_parse_of_written(window, tab, inner, terminal, src@);
            }
        }
        text
    }

    /// The id that `s` names, quotes at either end aside.
    pub fn parse_uuid(s: &str) -> (r: Option<u128>)
        ensures
            r == parsed_uuid(trim_quotes(s@)),
    {
        let t = trim_double_quotes(s);
        uuid_from_text(t.as_str())
    }

    /// The payload of the parsed fields (see `payload_of`); `Err` where the
    /// window or the terminal is missing.
    pub fn from_fields(
        window: Option<u128>,
        tab: Option<u128>,
        inner: Option<u128>,
        terminal: Option<u128>,
        src: Option<String>,
    ) -> (r: Result<DragPayload, ()>)
        ensures
            r is Ok <==> payload_of(window, tab, inner, terminal, opt_text(src)) is Some,
            r matches Ok(p) ==> Some(p@) == payload_of(window, tab, inner, terminal, opt_text(src)),
    {
        match (window, terminal) {
            (Some(w), Some(t)) => Ok(
                DragPayload {
                    window: WindowId(w),
                    tab: match tab {
                        Some(x) => Some(TabId(x)),
                        None => None,
                    },
                    inner: match inner {
                        Some(x) => Some(InnerTabId(x)),
                        None => None,
                    },
                    terminal: TerminalId(t),
                    src,
                },
            ),
            _ => Err(()),
        }
    }

    /// The payload that the text `s` describes (see `parse_payload`): its
    /// words `key=value` for the keys `window`, `tab`, `inner`, `terminal`
    /// and `src`, the last of each key counting; `Err` where the window or
    /// the terminal is missing or no id.
    #[verifier::loop_isolation(false)]
    pub fn try_from(s: &str) -> (r: Result<DragPayload, ()>)
        ensures
            r is Ok <==> parse_payload(s@) is Some,
            r matches Ok(p) ==> Some(p@) == parse_payload(s@),
    {
        let ws = split_words(s);
        let ghost wv = strings_view(ws@);
        let mut window: Option<String> = None;
        let mut tab: Option<String> = None;
        let mut inner: Option<String> = None;
        let mut terminal: Option<String> = None;
        let mut src: Option<String> = None;
        let mut i: usize = 0;
        while i < ws.len()
            invariant
                i <= ws@.len(),
                wv == strings_view(ws@),
                wv == words(s@),
                opt_text(window) == payload_value(wv.take(i as int), "window"@),
                opt_text(tab) == payload_value(wv.take(i as int), "tab"@),
                opt_text(inner) == payload_value(wv.take(i as int), "inner"@),
                opt_text(terminal) == payload_value(wv.take(i as int), "terminal"@),
                opt_text(src) == payload_value(wv.take(i as int), "src"@),
            decreases ws@.len() - i,
        {
            proof {
                assert(wv.take(i + 1).drop_last() =~= wv.take(i as int));
                assert(wv.take(i + 1).last() == ws@[i as int]@);
            }
            match split_once_char(ws[i].as_str(), '=') {
                Some((k, v)) => {
                    set_if_key(&mut window, &k, &v, "window");
                    set_if_key(&mut tab, &k, &v, "tab");
                    set_if_key(&mut inner, &k, &v, "inner");
                    set_if_key(&mut terminal, &k, &v, "terminal");
                    set_if_key(&mut src, &k, &v, "src");
                },
                None => {},
            }
            i += 1;
        }
        proof {
            assert(wv.take(ws@.len() as int) =~= wv);
        }
        let window_id = match &window {
            Some(v) => Self::parse_uuid(v.as_str()),
            None => None,
        };
        let tab_id = match &tab {
            Some(v) => Self::parse_uuid(v.as_str()),
            None => None,
        };
        let inner_id = match &inner {
            Some(v) => Self::parse_uuid(v.as_str()),
            None => None,
        };
        let terminal_id = match &terminal {
            Some(v) => Self::parse_uuid(v.as_str()),
            None => None,
        };
        let src_text = match &src {
            Some(v) => Some(trim_double_quotes(v.as_str())),
            None => None,
        };
        Self::from_fields(window_id, tab_id, inner_id, terminal_id, src_text)
    }
}


/// Reading the text written for a dragged terminal gives back what was
/// written, each id as `uuid::Uuid::parse_str` reads its written form and
/// the place it was dragged from as it is, where that place has no white
/// space and no double quote.
pub proof fn law_payload_parse_of_written(
    window: WindowId,
    tab: TabId,
    inner: Option<InnerTabId>,
    terminal: TerminalId,
    src: Seq<char>,
)
    requires
        plain_text(src),
    ensures
        parse_payload(payload_text(window, tab, inner, terminal, src)) == payload_of(
            parsed_uuid(uuid_text(window.0)),
            parsed_uuid(uuid_text(tab.0)),
            match inner {
                Some(i) => parsed_uuid(uuid_text(i.0)),
                None => None,
            },
            parsed_uuid(uuid_text(terminal.0)),
            Some(src),
        ),
{
    reveal_strlit("term-move window=");
    reveal_strlit(" tab=");
    reveal_strlit(" inner=");
    reveal_strlit(" terminal=");
    reveal_strlit(" src=");
    reveal_strlit("term-move");
    reveal_strlit("window");
    reveal_strlit("tab");
    reveal_strlit("inner");
    reveal_strlit("terminal");
    reveal_strlit("src");
    let u1 = uuid_text(window.0);
    let u2 = uuid_text(tab.0);
    let u4 = uuid_text(terminal.0);
    lemma_uuid_text_plain(window.0);
    lemma_uuid_text_plain(tab.0);
    lemma_uuid_text_plain(terminal.0);
    let sp = seq![' '];
    let eq = seq!['='];
    let w0 = "term-move"@;
    let w1 = "window"@ + eq + u1;
    let w2 = "tab"@ + eq + u2;
    let w4 = "terminal"@ + eq + u4;
    let w5 = "src"@ + eq + src;
    assert forall|i: int| 0 <= i < w1.len() implies !is_white(#[trigger] w1[i]) by {
        if i >= 7 { assert(w1[i] == u1[i - 7]); }
    }
    assert forall|i: int| 0 <= i < w2.len() implies !is_white(#[trigger] w2[i]) by {
        if i >= 4 { assert(w2[i] == u2[i - 4]); }
    }
    assert forall|i: int| 0 <= i < w4.len() implies !is_white(#[trigger] w4[i]) by {
        if i >= 9 { assert(w4[i] == u4[i - 9]); }
    }
    assert forall|i: int| 0 <= i < w5.len() implies !is_white(#[trigger] w5[i]) by {
        if i >= 4 { assert(w5[i] == src[i - 4]); }
    }
    lemma_words_single(w0);
    let x1 = w0 + sp + w1;
    lemma_words_add_word(w0, w1);
    let x2 = x1 + sp + w2;
    lemma_words_add_word(x1, w2);
    let (x3, ws3) = match inner {
        Some(i) => {
            let u3 = uuid_text(i.0);
            lemma_uuid_text_plain(i.0);
            let w3 = "inner"@ + eq + u3;
            assert forall|j: int| 0 <= j < w3.len() implies !is_white(#[trigger] w3[j]) by {
                if j >= 6 { assert(w3[j] == u3[j - 6]); }
            }
            lemma_words_add_word(x2, w3);
            (x2 + sp + w3, seq![w0, w1, w2, w3])
        },
        None => (x2, seq![w0, w1, w2]),
    };
    assert(words(x3) =~= ws3);
    let x4 = x3 + sp + w4;
    lemma_words_add_word(x3, w4);
    let x5 = x4 + sp + w5;
    lemma_words_add_word(x4, w5);
    let t = payload_text(window, tab, inner, terminal, src);
    assert(t =~= x5);
    let ws = ws3.push(w4).push(w5);
    assert(words(t) =~= ws);
    assert forall|i: int| 0 <= i < w0.len() implies #[trigger] w0[i] != '=' by {}
    lemma_split_none(w0);
    lemma_split_key_value("window"@, u1);
    lemma_split_key_value("tab"@, u2);
    lemma_split_key_value("terminal"@, u4);
    lemma_split_key_value("src"@, src);
    assert("src"@[0] != "tab"@[0]);
    assert("tab"@ != "src"@);
    assert("src"@ != "window"@);
    assert("src"@ != "inner"@);
    assert("src"@ != "terminal"@);
    assert("terminal"@ != "window"@);
    assert("terminal"@ != "tab"@);
    assert("terminal"@ != "inner"@);
    assert("inner"@[0] != "tab"@[0]);
    assert("inner"@ != "tab"@);
    assert("inner"@ != "window"@);
    assert("tab"@ != "window"@);
    lemma_trim_quotes_plain(u1);
    lemma_trim_quotes_plain(u2);
    lemma_trim_quotes_plain(u4);
    reveal_with_fuel(payload_value, 8);
    match inner {
        Some(i) => {
            let u3 = uuid_text(i.0);
            lemma_uuid_text_plain(i.0);
            lemma_split_key_value("inner"@, u3);
            lemma_trim_quotes_plain(u3);
        },
        None => {},
    }
    if src.len() > 0 {
        lemma_trim_quotes_plain(src);
    } else {
        assert(trim_quotes(src) =~= src);
    }
}

} // verus!
