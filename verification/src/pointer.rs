//! Pointers into JSON documents.
//!
//! A [`Pointer`] is a path of reference tokens, written in text as
//! `/a/b/0` with `~0` standing for `~` and `~1` standing for `/` inside a
//! token. Resolution walks the document: objects by member name, arrays by
//! decimal index. An absent path is an ordinary outcome, not an error.

use vstd::prelude::*;

use crate::json::{
    json_model, json_model_entries, json_model_seq, lemma_json_model_entries,
    lemma_json_model_seq, member_lookup, object_get, JsonModel, JsonValue,
};

verus! {

/// Whether `c` is a decimal digit.
pub open spec fn is_digit(c: char) -> bool {
    48 <= c as u32 && c as u32 <= 57
}

/// The numeric value of a digit character.
pub open spec fn digit_value(c: char) -> int {
    c as u32 - 48
}

/// The decimal value of a digit string.
pub open spec fn dec_val(s: Seq<char>) -> int
    decreases s.len(),
{
    if s.len() == 0 {
        0
    } else {
        10 * dec_val(s.drop_last()) + digit_value(s.last())
    }
}

/// Whether a token is a well-formed array index: non-empty, all digits,
/// and no superfluous leading zero.
pub open spec fn valid_index_token(s: Seq<char>) -> bool {
    &&& s.len() > 0
    &&& (forall|k: int| 0 <= k < s.len() ==> is_digit(s[k]))
    &&& (s.len() == 1 || s[0] != '0')
}

/// The array index a token denotes, if it is well formed.
pub open spec fn token_index(s: Seq<char>) -> Option<int> {
    if valid_index_token(s) {
        Option::Some(dec_val(s))
    } else {
        Option::None
    }
}

/// What a pointer resolves to in a document: step through objects by
/// member name and through arrays by index; anything else is not found.
pub open spec fn resolve_model(p: Seq<Seq<char>>, doc: JsonModel) -> Option<JsonModel>
    decreases p.len(),
{
    if p.len() == 0 {
        Option::Some(doc)
    } else {
        match doc {
            JsonModel::Object(entries) => match member_lookup(entries, p[0]) {
                Option::Some(child) => resolve_model(p.drop_first(), child),
                Option::None => Option::None,
            },
            JsonModel::Array(items) => match token_index(p[0]) {
                Option::Some(i) => if 0 <= i < items.len() {
                    resolve_model(p.drop_first(), items[i])
                } else {
                    Option::None
                },
                Option::None => Option::None,
            },
            _ => Option::None,
        }
    }
}

/// A token as it appears in pointer text, with `~` and `/` escaped.
pub open spec fn escape_token(s: Seq<char>) -> Seq<char>
    decreases s.len(),
{
    if s.len() == 0 {
        Seq::empty()
    } else {
        (if s[0] == '~' {
            seq!['~', '0']
        } else if s[0] == '/' {
            seq!['~', '1']
        } else {
            seq![s[0]]
        }) + escape_token(s.drop_first())
    }
}

/// The text form of a pointer: each token escaped and preceded by `/`.
pub open spec fn pointer_text(p: Seq<Seq<char>>) -> Seq<char>
    decreases p.len(),
{
    if p.len() == 0 {
        Seq::empty()
    } else {
        seq!['/'] + escape_token(p[0]) + pointer_text(p.drop_first())
    }
}

/// A token's text undone: `~0` back to `~`, `~1` back to `/`; any other
/// use of `~` is malformed.
pub open spec fn unescape_token(s: Seq<char>) -> Option<Seq<char>>
    decreases s.len(),
{
    if s.len() == 0 {
        Option::Some(Seq::empty())
    } else if s[0] == '~' {
        if s.len() >= 2 && s[1] == '0' {
            match unescape_token(s.skip(2)) {
                Option::Some(t) => Option::Some(seq!['~'] + t),
                Option::None => Option::None,
            }
        } else if s.len() >= 2 && s[1] == '1' {
            match unescape_token(s.skip(2)) {
                Option::Some(t) => Option::Some(seq!['/'] + t),
                Option::None => Option::None,
            }
        } else {
            Option::None
        }
    } else {
        match unescape_token(s.skip(1)) {
            Option::Some(t) => Option::Some(seq![s[0]] + t),
            Option::None => Option::None,
        }
    }
}

/// Unescaping undoes escaping exactly: a token written into pointer
/// text always reads back as itself.
pub proof fn lemma_unescape_escape(t: Seq<char>)
    ensures
        unescape_token(escape_token(t)) == Option::Some(t),
    decreases t.len(),
{
    if t.len() == 0 {
        assert(escape_token(t) =~= Seq::<char>::empty());
    } else {
        lemma_unescape_escape(t.drop_first());
        let e = escape_token(t);
        let rest = escape_token(t.drop_first());
        if t[0] == '~' {
            assert(e == seq!['~', '0'] + rest);
            assert(e[0] == '~' && e[1] == '0');
            assert(e.skip(2) =~= rest);
            assert(seq!['~'] + t.drop_first() =~= t);
        } else if t[0] == '/' {
            assert(e == seq!['~', '1'] + rest);
            assert(e[0] == '~' && e[1] == '1');
            assert(e.skip(2) =~= rest);
            assert(seq!['/'] + t.drop_first() =~= t);
        } else {
            assert(e == seq![t[0]] + rest);
            assert(e[0] == t[0]);
            assert(e.skip(1) =~= rest);
            assert(seq![t[0]] + t.drop_first() =~= t);
        }
    }
}

/// An escaped token never contains a bare `/`.
pub proof fn lemma_escape_slash_free(t: Seq<char>)
    ensures
        forall|i: int| 0 <= i < escape_token(t).len() ==> escape_token(t)[i] != '/',
    decreases t.len(),
{
    if t.len() > 0 {
        lemma_escape_slash_free(t.drop_first());
        let rest = escape_token(t.drop_first());
        if t[0] == '~' {
            assert(escape_token(t) == seq!['~', '0'] + rest);
        } else if t[0] == '/' {
            assert(escape_token(t) == seq!['~', '1'] + rest);
        } else {
            assert(escape_token(t) == seq![t[0]] + rest);
        }
    }
}

/// A stretch without `/` that ends at a `/` or at the end of the text
/// is exactly one token.
pub proof fn lemma_token_end_past(s: Seq<char>, i: int, e: int)
    requires
        0 <= i <= e <= s.len(),
        forall|k: int| i <= k < e ==> s[k] != '/',
        e == s.len() || s[e] == '/',
    ensures
        token_end(s, i) == e,
    decreases e - i,
{
    if i < e {
        lemma_token_end_past(s, i + 1, e);
    }
}

/// `token_end` ignores what stands before the position it starts at.
pub proof fn lemma_token_end_shift(prefix: Seq<char>, s: Seq<char>, i: int)
    requires
        0 <= i <= s.len(),
    ensures
        token_end(prefix + s, prefix.len() + i) == prefix.len() + token_end(s, i),
    decreases s.len() - i,
{
    let n = prefix.len() as int;
    if i < s.len() {
        assert((prefix + s)[n + i] == s[i]);
        if s[i] != '/' {
            lemma_token_end_shift(prefix, s, i + 1);
        }
    }
}

/// `parse_tokens` ignores what stands before the position it starts at.
pub proof fn lemma_parse_tokens_shift(prefix: Seq<char>, s: Seq<char>, i: int)
    requires
        0 <= i <= s.len(),
    ensures
        parse_tokens(prefix + s, prefix.len() + i) == parse_tokens(s, i),
    decreases s.len() - i,
{
    let n = prefix.len() as int;
    let whole = prefix + s;
    lemma_token_end_shift(prefix, s, i);
    lemma_token_end(s, i);
    let e = token_end(s, i);
    assert(whole.subrange(n + i, n + e) =~= s.subrange(i, e));
    if e < s.len() {
        lemma_parse_tokens_shift(prefix, s, e + 1);
    }
}

/// Round trip: the text a pointer renders to parses back to the same
/// pointer.
pub proof fn lemma_pointer_text_round_trip(p: Seq<Seq<char>>)
    ensures
        parse_pointer_model(pointer_text(p)) == Option::Some(p),
    decreases p.len(),
{
    if p.len() == 0 {
        assert(pointer_text(p) =~= Seq::<char>::empty());
        assert(parse_pointer_model(pointer_text(p)) == Option::Some(
            Seq::<Seq<char>>::empty()));
        assert(p =~= Seq::<Seq<char>>::empty());
    } else {
        let s = pointer_text(p);
        let esc = escape_token(p[0]);
        let tail = pointer_text(p.drop_first());
        assert(s == seq!['/'] + esc + tail);
        assert(s[0] == '/');
        assert(s.len() >= 1);
        let e = 1 + esc.len() as int;
        lemma_escape_slash_free(p[0]);
        assert(forall|k: int| 1 <= k < e ==> s[k] == esc[k - 1]);
        if p.len() == 1 {
            assert(tail =~= Seq::<char>::empty());
            assert(e == s.len());
            lemma_token_end_past(s, 1, e);
            assert(s.subrange(1, e) =~= esc);
            lemma_unescape_escape(p[0]);
            assert(parse_tokens(s, 1) == Option::Some(seq![p[0]]));
            assert(seq![p[0]] =~= p);
        } else {
            assert(pointer_text(p.drop_first())[0] == '/');
            assert(s[e] == '/');
            lemma_token_end_past(s, 1, e);
            assert(s.subrange(1, e) =~= esc);
            lemma_unescape_escape(p[0]);
            assert(e < s.len());
            lemma_pointer_text_round_trip(p.drop_first());
            assert(parse_tokens(tail, 1) == Option::Some(p.drop_first()));
            let prefix = seq!['/'] + esc;
            assert(prefix + tail =~= s);
            assert(prefix.len() == e);
            assert(tail.len() >= 1);
            lemma_parse_tokens_shift(prefix, tail, 1);
            assert(parse_tokens(s, e + 1) == Option::Some(p.drop_first()));
            assert(seq![p[0]] + p.drop_first() =~= p);
        }
    }
}

/// The position of the first `/` at or after `i`, or the end of the text.
pub open spec fn token_end(s: Seq<char>, i: int) -> int
    decreases s.len() - i,
{
    if i >= s.len() || s[i] == '/' {
        i
    } else {
        token_end(s, i + 1)
    }
}

/// `token_end` never moves backwards and never passes the end.
pub proof fn lemma_token_end(s: Seq<char>, i: int)
    requires
        i <= s.len(),
    ensures
        i <= token_end(s, i) <= s.len(),
        token_end(s, i) < s.len() ==> s[token_end(s, i)] == '/',
        forall|k: int| i <= k < token_end(s, i) ==> s[k] != '/',
    decreases s.len() - i,
{
    if i < s.len() && s[i] != '/' {
        lemma_token_end(s, i + 1);
    }
}

/// The tokens encoded from position `i` to the end of the text, where `i`
/// sits just after a `/`; fails if a token's escapes are malformed.
pub open spec fn parse_tokens(s: Seq<char>, i: int) -> Option<Seq<Seq<char>>>
    decreases s.len() - i
        via parse_tokens_decreases
{
    if i > s.len() {
        Option::None
    } else {
        let e = token_end(s, i);
        match unescape_token(s.subrange(i, e)) {
            Option::None => Option::None,
            Option::Some(tok) => if e >= s.len() {
                Option::Some(seq![tok])
            } else {
                match parse_tokens(s, e + 1) {
                    Option::None => Option::None,
                    Option::Some(rest) => Option::Some(seq![tok] + rest),
                }
            },
        }
    }
}

#[via_fn]
proof fn parse_tokens_decreases(s: Seq<char>, i: int) {
    if i <= s.len() {
        lemma_token_end(s, i);
    }
}

/// The pointer a text denotes: empty text is the root pointer; otherwise
/// the text must start with `/` and every token must unescape.
pub open spec fn parse_pointer_model(s: Seq<char>) -> Option<Seq<Seq<char>>> {
    if s.len() == 0 {
        Option::Some(Seq::empty())
    } else if s[0] != '/' {
        Option::None
    } else {
        parse_tokens(s, 1)
    }
}

/// A path of reference tokens into a JSON document.
#[derive(Debug, PartialEq, Eq)]
pub struct Pointer {
    tokens: Vec<String>,
}

impl View for Pointer {
    type V = Seq<Seq<char>>;

    closed spec fn view(&self) -> Seq<Seq<char>> {
        self.tokens.deep_view()
    }
}

impl DeepView for Pointer {
    type V = Seq<Seq<char>>;

    open spec fn deep_view(&self) -> Seq<Seq<char>> {
        self.view()
    }
}

impl Clone for Pointer {
    /// A copy with the same tokens.
    fn clone(&self) -> (r: Self)
        ensures
            r@ == self@,
    {
        let mut tokens: Vec<String> = Vec::new();
        let n: usize = self.tokens.len();
        let mut i: usize = 0;
        while i < n
            invariant
                0 <= i <= n,
                n == self.tokens@.len(),
                tokens@.len() == i,
                forall|j: int| 0 <= j < i ==> tokens@[j]@ == self.tokens@[j]@,
            decreases n - i,
        {
            tokens.push(self.tokens[i].clone());
            i = i + 1;
        }
        let r = Pointer { tokens };
        proof {
            assert(r@ =~= self@);
        }
        r
    }
}

impl Pointer {
    /// The pointer made of the given tokens, in order.
    pub fn from_tokens(tokens: Vec<String>) -> (r: Self)
        ensures
            r@ == tokens.deep_view(),
    {
        Pointer { tokens }
    }

    /// The root pointer, which resolves to the document itself.
    pub fn root() -> (r: Self)
        ensures
            r@ == Seq::<Seq<char>>::empty(),
    {
        let r = Pointer { tokens: Vec::new() };
        proof {
            assert(r@ =~= Seq::<Seq<char>>::empty());
        }
        r
    }

    /// The value this pointer addresses in `doc`, if the path exists.
    pub fn resolve<'a>(&self, doc: &'a JsonValue) -> (r: Option<&'a JsonValue>)
        ensures
            match r {
                Option::Some(v) => resolve_model(self@, doc@) == Option::Some(v@),
                Option::None => resolve_model(self@, doc@) is None,
            },
    {
        let n: usize = self.tokens.len();
        let mut cur: &JsonValue = doc;
        let mut k: usize = 0;
        proof {
            assert(self@.skip(0) =~= self@);
        }
        while k < n
            invariant
                0 <= k <= n,
                n == self.tokens@.len(),
                self@.len() == n,
                resolve_model(self@, doc@) == resolve_model(self@.skip(k as int), cur@),
            decreases n - k,
        {
            let ghost rest = self@.skip(k as int);
            proof {
                assert(rest.len() == n - k);
                assert(rest[0] == self.tokens@[k as int]@);
                assert(rest.drop_first() =~= self@.skip(k as int + 1));
            }
            match cur {
                JsonValue::Object(entries) => {
                    proof {
                        assert(cur@ == JsonModel::Object(json_model_entries(entries@)));
                    }
                    match object_get(entries, &self.tokens[k]) {
                        Option::Some(child) => {
                            cur = child;
                        },
                        Option::None => {
                            return Option::None;
                        },
                    }
                },
                JsonValue::Array(items) => {
                    proof {
                        assert(cur@ == JsonModel::Array(json_model_seq(items@)));
                        lemma_json_model_seq(items@);
                    }
                    let ln: usize = items.len();
                    match token_to_index(&self.tokens[k]) {
                        Option::Some(i) => {
                            if i < ln {
                                cur = &items[i];
                            } else {
                                return Option::None;
                            }
                        },
                        Option::None => {
                            return Option::None;
                        },
                    }
                },
                _ => {
                    return Option::None;
                },
            }
            k = k + 1;
        }
        proof {
            assert(self@.skip(n as int) =~= Seq::<Seq<char>>::empty());
        }
        Option::Some(cur)
    }
}

/// Relies on `String::push`: appends exactly the one character.
#[verifier::external_body]
fn push_char(s: &mut String, c: char)
    ensures
        final(s)@ == old(s)@.push(c),
{
    s.push(c);
}

impl Pointer {
    /// The text form of this pointer, tokens escaped and `/`-separated.
    pub fn to_text(&self) -> (r: String)
        ensures
            r@ == pointer_text(self@),
    {
        let mut out = String::new();
        let n: usize = self.tokens.len();
        let mut t: usize = 0;
        proof {
            assert(self@.skip(0) =~= self@);
            assert(out@ + pointer_text(self@) =~= pointer_text(self@));
        }
        while t < n
            invariant
                0 <= t <= n,
                n == self.tokens@.len(),
                self@.len() == n,
                pointer_text(self@) == out@ + pointer_text(self@.skip(t as int)),
            decreases n - t,
        {
            let ghost rest = self@.skip(t as int);
            proof {
                assert(rest[0] == self.tokens@[t as int]@);
                assert(rest.drop_first() =~= self@.skip(t as int + 1));
            }
            let ghost out0 = out@;
            push_char(&mut out, '/');
            let tok: &String = &self.tokens[t];
            let ghost tail = pointer_text(self@.skip(t as int + 1));
            let m: usize = tok.as_str().unicode_len();
            let mut j: usize = 0;
            proof {
                assert(tok@.skip(0) =~= tok@);
                assert(rest[0] == tok@);
                assert(pointer_text(rest) == seq!['/'] + escape_token(tok@) + tail);
                assert(out@ + escape_token(tok@.skip(0)) + tail
                    =~= out0 + pointer_text(rest));
                assert(pointer_text(self@) == out@ + escape_token(tok@.skip(0)) + tail);
            }
            while j < m
                invariant
                    0 <= j <= m,
                    m == tok@.len(),
                    tail == pointer_text(self@.skip(t as int + 1)),
                    pointer_text(self@) == out@ + escape_token(tok@.skip(j as int)) + tail,
                decreases m - j,
            {
                let ghost esub = tok@.skip(j as int);
                proof {
                    assert(esub[0] == tok@[j as int]);
                    assert(esub.drop_first() =~= tok@.skip(j as int + 1));
                }
                let c = tok.as_str().get_char(j);
                if c == '~' {
                    push_char(&mut out, '~');
                    push_char(&mut out, '0');
                    proof {
                        assert(escape_token(esub) == seq!['~', '0']
                            + escape_token(tok@.skip(j as int + 1)));
                    }
                } else if c == '/' {
                    push_char(&mut out, '~');
                    push_char(&mut out, '1');
                    proof {
                        assert(escape_token(esub) == seq!['~', '1']
                            + escape_token(tok@.skip(j as int + 1)));
                    }
                } else {
                    push_char(&mut out, c);
                    proof {
                        assert(escape_token(esub) == seq![c]
                            + escape_token(tok@.skip(j as int + 1)));
                    }
                }
                proof {
                    assert(pointer_text(self@) == out@
                        + escape_token(tok@.skip(j as int + 1)) + tail) by {
                        assert(out@ + escape_token(tok@.skip(j as int + 1)) + tail
                            =~= pointer_text(self@));
                    }
                }
                j = j + 1;
            }
            proof {
                assert(tok@.skip(m as int) =~= Seq::<char>::empty());
                assert(escape_token(Seq::<char>::empty()) =~= Seq::<char>::empty());
                assert(out@ + escape_token(tok@.skip(m as int)) + tail =~= out@ + tail);
            }
            t = t + 1;
        }
        proof {
            assert(self@.skip(n as int) =~= Seq::<Seq<char>>::empty());
            assert(pointer_text(self@) =~= out@);
        }
        out
    }
}

/// The token text between positions `i` and `e`, unescaped; fails on a
/// malformed escape.
fn unescape_range(s: &str, i: usize, e: usize) -> (r: Option<String>)
    requires
        i <= e <= s@.len(),
    ensures
        match r {
            Option::Some(t) => unescape_token(s@.subrange(i as int, e as int))
                == Option::Some(t@),
            Option::None => unescape_token(s@.subrange(i as int, e as int)) is None,
        },
{
    let mut out = String::new();
    let mut j: usize = i;
    while j < e
        invariant
            i <= j <= e <= s@.len(),
            unescape_token(s@.subrange(j as int, e as int)) matches Option::Some(t)
                ==> unescape_token(s@.subrange(i as int, e as int))
                    == Option::Some(out@ + t),
            unescape_token(s@.subrange(j as int, e as int)) is None
                ==> unescape_token(s@.subrange(i as int, e as int)) is None,
        decreases e - j,
    {
        let ghost sub = s@.subrange(j as int, e as int);
        proof {
            assert(sub[0] == s@[j as int]);
        }
        let c = s.get_char(j);
        if c == '~' {
            if j + 1 >= e {
                proof {
                    assert(sub.len() < 2);
                    assert(unescape_token(sub) is None);
                }
                return Option::None;
            }
            proof {
                assert(sub[1] == s@[j as int + 1]);
                assert(sub.skip(2) =~= s@.subrange(j as int + 2, e as int));
            }
            let c2 = s.get_char(j + 1);
            if c2 == '0' {
                let ghost out0 = out@;
                push_char(&mut out, '~');
                proof {
                    if let Option::Some(t2) = unescape_token(s@.subrange(
                        j as int + 2, e as int)) {
                        assert(unescape_token(sub) == Option::Some(seq!['~'] + t2));
                        assert(out0 + (seq!['~'] + t2) =~= out@ + t2);
                    }
                }
            } else if c2 == '1' {
                let ghost out0 = out@;
                push_char(&mut out, '/');
                proof {
                    if let Option::Some(t2) = unescape_token(s@.subrange(
                        j as int + 2, e as int)) {
                        assert(unescape_token(sub) == Option::Some(seq!['/'] + t2));
                        assert(out0 + (seq!['/'] + t2) =~= out@ + t2);
                    }
                }
            } else {
                proof {
                    assert(unescape_token(sub) is None);
                }
                return Option::None;
            }
            j = j + 2;
        } else {
            let ghost out0 = out@;
            push_char(&mut out, c);
            proof {
                assert(sub.skip(1) =~= s@.subrange(j as int + 1, e as int));
                if let Option::Some(t2) = unescape_token(s@.subrange(
                    j as int + 1, e as int)) {
                    assert(unescape_token(sub) == Option::Some(seq![c] + t2));
                    assert(out0 + (seq![c] + t2) =~= out@ + t2);
                }
            }
            j = j + 1;
        }
    }
    proof {
        assert(s@.subrange(e as int, e as int) =~= Seq::<char>::empty());
        assert(unescape_token(Seq::<char>::empty()) == Option::Some(Seq::<char>::empty()));
        assert(out@ + Seq::<char>::empty() =~= out@);
    }
    Option::Some(out)
}

/// The tokens from position `i` (just after a `/`) to the end of the
/// pointer text.
fn parse_rest(s: &str, i: usize) -> (r: Option<Vec<String>>)
    requires
        1 <= i as int <= s@.len(),
    ensures
        match r {
            Option::Some(v) => parse_tokens(s@, i as int) == Option::Some(v.deep_view()),
            Option::None => parse_tokens(s@, i as int) is None,
        },
    decreases s@.len() - i,
{
    let m: usize = s.unicode_len();
    let mut e: usize = i;
    while e < m
        invariant
            i <= e <= m,
            m == s@.len(),
            token_end(s@, i as int) == token_end(s@, e as int),
        ensures
            i <= e <= m,
            m == s@.len(),
            token_end(s@, i as int) == e as int,
            e < m ==> s@[e as int] == '/',
        decreases m - e,
    {
        let c = s.get_char(e);
        if c == '/' {
            proof {
                assert(token_end(s@, e as int) == e as int);
            }
            break;
        }
        proof {
            assert(token_end(s@, e as int) == token_end(s@, e as int + 1));
        }
        e = e + 1;
    }
    let tok = match unescape_range(s, i, e) {
        Option::Some(t) => t,
        Option::None => {
            return Option::None;
        },
    };
    if e == m {
        let mut v: Vec<String> = Vec::new();
        v.push(tok);
        proof {
            assert(v.deep_view() =~= seq![v@[0]@]);
        }
        Option::Some(v)
    } else {
        match parse_rest(s, e + 1) {
            Option::Some(mut rest) => {
                let ghost rv = rest.deep_view();
                rest.insert(0, tok);
                proof {
                    assert(rest.deep_view() =~= seq![rest@[0]@] + rv);
                }
                Option::Some(rest)
            },
            Option::None => Option::None,
        }
    }
}

impl Pointer {
    /// The pointer a text denotes, if it is well formed: empty text is the
    /// root; otherwise a `/`-led list of tokens with valid escapes.
    pub fn parse(s: &str) -> (r: Option<Pointer>)
        ensures
            match r {
                Option::Some(p) => parse_pointer_model(s@) == Option::Some(p@),
                Option::None => parse_pointer_model(s@) is None,
            },
    {
        let m: usize = s.unicode_len();
        if m == 0 {
            return Option::Some(Pointer::root());
        }
        if s.get_char(0) != '/' {
            return Option::None;
        }
        match parse_rest(s, 1) {
            Option::Some(v) => Option::Some(Pointer::from_tokens(v)),
            Option::None => Option::None,
        }
    }
}

/// All of `s` is digits.
pub open spec fn all_digits(s: Seq<char>) -> bool {
    forall|k: int| 0 <= k < s.len() ==> is_digit(s[k])
}

/// A digit string's value is never negative.
proof fn lemma_dec_val_nonneg(s: Seq<char>)
    requires
        all_digits(s),
    ensures
        dec_val(s) >= 0,
    decreases s.len(),
{
    if s.len() > 0 {
        assert(all_digits(s.drop_last())) by {
            assert(forall|k: int| 0 <= k < s.len() - 1 ==> s.drop_last()[k] == s[k]);
        }
        lemma_dec_val_nonneg(s.drop_last());
    }
}

/// A digit string's value only grows as digits are appended.
proof fn lemma_dec_val_grows(s: Seq<char>, j: int)
    requires
        all_digits(s),
        0 <= j <= s.len(),
    ensures
        dec_val(s.take(j)) <= dec_val(s),
    decreases s.len() - j,
{
    if j < s.len() {
        assert(s.take(j + 1).drop_last() =~= s.take(j));
        assert(s.take(j + 1).last() == s[j]);
        assert(all_digits(s.take(j))) by {
            assert(forall|k: int| 0 <= k < j ==> s.take(j)[k] == s[k]);
        }
        lemma_dec_val_nonneg(s.take(j));
        lemma_dec_val_grows(s, j + 1);
    } else {
        assert(s.take(j) =~= s);
    }
}

/// The array index a token denotes, if it denotes one that fits the
/// machine; a value too large for `usize` can never land inside an array.
fn token_to_index(s: &String) -> (r: Option<usize>)
    ensures
        match r {
            Option::Some(i) => token_index(s@) == Option::Some(i as int),
            Option::None => token_index(s@) is None || token_index(s@)->Some_0
                > usize::MAX,
        },
{
    let m: usize = s.as_str().unicode_len();
    if m == 0 {
        return Option::None;
    }
    let mut k: usize = 0;
    while k < m
        invariant
            0 <= k <= m,
            m == s@.len(),
            forall|t: int| 0 <= t < k ==> is_digit(s@[t]),
        decreases m - k,
    {
        let c = s.as_str().get_char(k);
        if (c as u32) < 48 || (c as u32) > 57 {
            return Option::None;
        }
        k = k + 1;
    }
    if m > 1 && s.as_str().get_char(0) == '0' {
        return Option::None;
    }
    assert(valid_index_token(s@));
    let ghost mx: int = usize::MAX as int;
    let mut acc: usize = 0;
    let mut k: usize = 0;
    proof {
        assert(s@.take(0) =~= Seq::<char>::empty());
    }
    while k < m
        invariant
            0 <= k <= m,
            m == s@.len(),
            valid_index_token(s@),
            mx == usize::MAX as int,
            acc == dec_val(s@.take(k as int)),
        decreases m - k,
    {
        let c = s.as_str().get_char(k);
        assert(is_digit(s@[k as int]));
        let d: usize = ((c as u32) - 48) as usize;
        proof {
            assert(s@.take(k as int + 1).drop_last() =~= s@.take(k as int));
            assert(s@.take(k as int + 1).last() == s@[k as int]);
        }
        if acc > (usize::MAX - d) / 10 {
            proof {
                assert(10 * (acc as int) + d > mx) by (nonlinear_arith)
                    requires
                        acc as int >= (mx - d) / 10 + 1,
                        0 <= d <= 9,
                        mx >= 10,
                ;
                assert(dec_val(s@.take(k as int + 1)) > mx);
                assert(all_digits(s@));
                lemma_dec_val_grows(s@, k as int + 1);
                assert(dec_val(s@) > mx);
            }
            return Option::None;
        }
        proof {
            assert(10 * (acc as int) + d <= mx) by (nonlinear_arith)
                requires
                    acc as int <= (mx - d) / 10,
                    0 <= d <= 9,
                    mx >= 10,
            ;
        }
        acc = acc * 10 + d;
        k = k + 1;
    }
    proof {
        assert(s@.take(m as int) =~= s@);
    }
    Option::Some(acc)
}

} // verus!
