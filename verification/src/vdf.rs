//! Tokenizer and stack-based parser for Valve's VDF text format.
//!
//! A VDF document is a sequence of quoted strings and braces. A string
//! followed by a string is a key/value pair; a string followed by `{` opens a
//! nested block under that key, closed by `}`.

use vstd::prelude::*;

use crate::text::{chars_of, char_is_whitespace, is_unicode_whitespace, char_width, utf8_len, push_char, push_str, push_decimal, decimal, string_from, string_of_range, utf8_width, byte_len, lemma_utf8_len_take_succ, lemma_utf8_len_take_le};

verus! {

/// What a VDF value means: a string, or a table from keys to values.
pub enum VdfData {
    Text(Seq<char>),
    Table(Map<Seq<char>, VdfData>),
}

/// A parsed VDF value: either a bare string or a block of key/value pairs.
#[derive(Debug)]
pub enum VdfValue {
    String(String),
    Block(VdfBlock),
}

/// A block of key/value pairs. Each key occurs at most once; the entries
/// keep the order in which their keys were first inserted.
#[derive(Debug)]
pub struct VdfBlock {
    entries: Vec<(String, VdfValue)>,
}

impl VdfValue {
    /// The meaning of this value.
    pub closed spec fn data(self) -> VdfData
        decreases self,
    {
        match self {
            VdfValue::String(s) => VdfData::Text(s@),
            VdfValue::Block(b) => VdfData::Table(entries_table(b.entries@)),
        }
    }
}

/// The table denoted by a list of entries: later entries win.
pub closed spec fn entries_table(es: Seq<(String, VdfValue)>) -> Map<Seq<char>, VdfData>
    decreases es,
{
    if es.len() == 0 {
        Map::empty()
    } else {
        entries_table(es.drop_last()).insert(es.last().0@, es.last().1.data())
    }
}

impl View for VdfValue {
    type V = VdfData;

    open spec fn view(&self) -> VdfData {
        self.data()
    }
}

impl View for VdfBlock {
    type V = Map<Seq<char>, VdfData>;

    closed spec fn view(&self) -> Map<Seq<char>, VdfData> {
        entries_table(self.entries@)
    }
}


/// Looking up a key of a list with distinct keys finds its entry.
proof fn lemma_table_lookup(es: Seq<(String, VdfValue)>, i: int)
    requires
        0 <= i < es.len(),
        forall|a: int, b: int| 0 <= a < b < es.len() ==> es[a].0@ != es[b].0@,
    ensures
        entries_table(es).contains_key(es[i].0@),
        entries_table(es)[es[i].0@] == es[i].1.data(),
    decreases es.len(),
{
    if i < es.len() - 1 {
        lemma_table_lookup(es.drop_last(), i);
    }
}

/// A key that no entry carries is absent from the table.
proof fn lemma_table_absent(es: Seq<(String, VdfValue)>, k: Seq<char>)
    requires
        forall|a: int| 0 <= a < es.len() ==> es[a].0@ != k,
    ensures
        !entries_table(es).contains_key(k),
    decreases es.len(),
{
    if es.len() > 0 {
        lemma_table_absent(es.drop_last(), k);
    }
}

/// Replacing the entry of a key updates the table at that key.
proof fn lemma_table_update(es: Seq<(String, VdfValue)>, i: int, e: (String, VdfValue))
    requires
        0 <= i < es.len(),
        es[i].0@ == e.0@,
        forall|a: int, b: int| 0 <= a < b < es.len() ==> es[a].0@ != es[b].0@,
    ensures
        entries_table(es.update(i, e)) == entries_table(es).insert(e.0@, e.1.data()),
    decreases es.len(),
{
    let es2 = es.update(i, e);
    if i == es.len() - 1 {
        assert(es2.drop_last() =~= es.drop_last());
        assert(entries_table(es2) =~= entries_table(es).insert(e.0@, e.1.data()));
    } else {
        assert(es2.drop_last() =~= es.drop_last().update(i, e));
        lemma_table_update(es.drop_last(), i, e);
        assert(es.last().0@ != e.0@);
        assert(entries_table(es2) =~= entries_table(es).insert(e.0@, e.1.data()));
    }
}

/// Appending an entry inserts it into the table.
proof fn lemma_table_push(es: Seq<(String, VdfValue)>, e: (String, VdfValue))
    ensures
        entries_table(es.push(e)) == entries_table(es).insert(e.0@, e.1.data()),
{
    assert(es.push(e).drop_last() =~= es);
}

impl VdfBlock {
    #[verifier::type_invariant]
    closed spec fn keys_distinct(self) -> bool {
        forall|a: int, b: int|
            0 <= a < b < self.entries@.len() ==> self.entries@[a].0@ != self.entries@[b].0@
    }

    /// The keys, in the order in which they were first inserted.
    pub closed spec fn keys(&self) -> Seq<Seq<char>> {
        self.entries@.map_values(|e: (String, VdfValue)| e.0@)
    }

    /// An empty block.
    pub fn new() -> (b: Self)
        ensures
            b@ == Map::<Seq<char>, VdfData>::empty(),
            b.keys() == Seq::<Seq<char>>::empty(),
    {
        let b = VdfBlock { entries: Vec::new() };
        assert(b.keys() =~= Seq::<Seq<char>>::empty());
        b
    }

    /// Number of keys.
    pub fn len(&self) -> (n: usize)
        ensures
            n == self.keys().len(),
    {
        self.entries.len()
    }

    /// Index of the entry with key `key`, if any.
    fn position(&self, key: &String) -> (r: Option<usize>)
        ensures
            match r {
                Some(i) => i < self.entries@.len() && self.entries@[i as int].0@ == key@,
                None => forall|a: int| 0 <= a < self.entries@.len() ==> self.entries@[a].0@ != key@,
            },
    {
        let mut i: usize = 0;
        while i < self.entries.len()
            invariant
                i <= self.entries@.len(),
                forall|a: int| 0 <= a < i ==> self.entries@[a].0@ != key@,
            decreases self.entries@.len() - i,
        {
            if self.entries[i].0 == *key {
                return Some(i);
            }
            i = i + 1;
        }
        None
    }

    /// Sets `key` to `value`, replacing a previous value of that key in place.
    pub fn insert(&mut self, key: String, value: VdfValue)
        ensures
            final(self)@ == old(self)@.insert(key@, value@),
            old(self)@.contains_key(key@) ==> final(self).keys() == old(self).keys(),
            !old(self)@.contains_key(key@) ==> final(self).keys() == old(self).keys().push(key@),
    {
        proof {
            use_type_invariant(&*self);
        }
        let pos = self.position(&key);
        let mut entries: Vec<(String, VdfValue)> = Vec::new();
        std::mem::swap(&mut entries, &mut self.entries);
        let ghost es = entries@;
        let ghost k = key@;
        match pos {
            Some(i) => {
                proof {
                    lemma_table_lookup(es, i as int);
                    lemma_table_update(es, i as int, (key, value));
                }
                entries.set(i, (key, value));
                assert(entries@.map_values(|e: (String, VdfValue)| e.0@) =~= es.map_values(
                    |e: (String, VdfValue)| e.0@,
                ));
            },
            None => {
                proof {
                    lemma_table_absent(es, k);
                    lemma_table_push(es, (key, value));
                }
                entries.push((key, value));
                assert(entries@.map_values(|e: (String, VdfValue)| e.0@) =~= es.map_values(
                    |e: (String, VdfValue)| e.0@,
                ).push(k));
            },
        }
        self.entries = entries;
    }

    /// The value stored under `key`, if any.
    pub fn get(&self, key: &str) -> (r: Option<&VdfValue>)
        ensures
            match r {
                Some(v) => self@.contains_key(key@) && v@ == self@[key@],
                None => !self@.contains_key(key@),
            },
    {
        proof {
            use_type_invariant(self);
        }
        let k = string_from(key);
        match self.position(&k) {
            Some(i) => {
                proof {
                    lemma_table_lookup(self.entries@, i as int);
                }
                Some(&self.entries[i].1)
            },
            None => {
                proof {
                    lemma_table_absent(self.entries@, key@);
                }
                None
            },
        }
    }

    /// Whether `key` has a value.
    pub fn contains_key(&self, key: &str) -> (b: bool)
        ensures
            b == self@.contains_key(key@),
    {
        match self.get(key) {
            Some(_) => true,
            None => false,
        }
    }
}


/// A string value means its text; a block value means the block's table.
pub broadcast proof fn lemma_value_view(v: VdfValue)
    ensures
        #[trigger] v@ == match v {
            VdfValue::String(s) => VdfData::Text(s@),
            VdfValue::Block(b) => VdfData::Table(b@),
        },
{
}

impl VdfValue {
    /// The string of a string value.
    pub fn as_string(&self) -> (s: &str)
        requires
            self@ is Text,
        ensures
            self@ == VdfData::Text(s@),
    {
        match self {
            VdfValue::String(s) => s.as_str(),
            VdfValue::Block(_) => vstd::pervasive::unreached(),
        }
    }

    /// The block of a block value.
    pub fn as_block(&self) -> (b: &VdfBlock)
        requires
            self@ is Table,
        ensures
            self@ == VdfData::Table(b@),
    {
        match self {
            VdfValue::Block(b) => b,
            VdfValue::String(_) => vstd::pervasive::unreached(),
        }
    }

    /// Whether this value is a block.
    pub fn is_block(&self) -> (b: bool)
        ensures
            b == (self@ is Table),
    {
        match self {
            VdfValue::Block(_) => true,
            VdfValue::String(_) => false,
        }
    }
}

impl VdfBlock {
    /// The `i`-th key, in insertion order, and its value.
    pub fn entry(&self, i: usize) -> (r: (&String, &VdfValue))
        requires
            i < self.keys().len(),
        ensures
            r.0@ == self.keys()[i as int],
            self@.contains_key(r.0@),
            r.1@ == self@[r.0@],
    {
        proof {
            use_type_invariant(self);
            lemma_table_lookup(self.entries@, i as int);
        }
        let e = &self.entries[i];
        (&e.0, &e.1)
    }
}

/// The kinds of VDF tokens.
#[derive(Debug, Clone, Copy, PartialEq, Eq, Structural)]
pub enum VdfTokenType {
    String,
    BraceStart,
    BraceEnd,
}

/// A token: its kind and its text (the contents of a quoted string, or the
/// brace itself).
#[derive(Debug)]
pub struct VdfToken {
    pub token_type: VdfTokenType,
    pub value: String,
}

impl View for VdfToken {
    type V = (VdfTokenType, Seq<char>);

    open spec fn view(&self) -> (VdfTokenType, Seq<char>) {
        (self.token_type, self.value@)
    }
}

/// Index of the first `"` in `s`.
pub open spec fn find_quote(s: Seq<char>) -> Option<int>
    decreases s.len(),
{
    if s.len() == 0 {
        None
    } else if s[0] == '"' {
        Some(0)
    } else {
        match find_quote(s.drop_first()) {
            Some(k) => Some(k + 1),
            None => None,
        }
    }
}

pub proof fn lemma_find_quote(s: Seq<char>)
    ensures
        match find_quote(s) {
            Some(k) => 0 <= k < s.len() && s[k] == '"' && forall|j: int| 0 <= j < k ==> s[j] != '"',
            None => forall|j: int| 0 <= j < s.len() ==> s[j] != '"',
        },
    decreases s.len(),
{
    if s.len() > 0 && s[0] != '"' {
        lemma_find_quote(s.drop_first());
        match find_quote(s.drop_first()) {
            Some(k) => {
                assert forall|j: int| 0 <= j < k + 1 implies s[j] != '"' by {
                    if j > 0 {
                        assert(s[j] == s.drop_first()[j - 1]);
                    }
                }
            },
            None => {
                assert forall|j: int| 0 <= j < s.len() implies s[j] != '"' by {
                    if j > 0 {
                        assert(s[j] == s.drop_first()[j - 1]);
                    }
                }
            },
        }
    }
}

/// The message for a character that cannot start a token, at byte offset `pos`.
pub open spec fn unexpected_char_message(c: char, pos: nat) -> Seq<char> {
    "unexpected character '"@ + seq![c] + "' at position "@ + decimal(pos)
}

/// Prepends a token to a tokenizer outcome.
pub open spec fn prepend_token(
    t: (VdfTokenType, Seq<char>),
    r: Result<Seq<(VdfTokenType, Seq<char>)>, Seq<char>>,
) -> Result<Seq<(VdfTokenType, Seq<char>)>, Seq<char>> {
    match r {
        Ok(ts) => Ok(seq![t] + ts),
        Err(e) => Err(e),
    }
}

/// Prepends tokens to a tokenizer outcome.
pub open spec fn prepend_tokens(
    pre: Seq<(VdfTokenType, Seq<char>)>,
    r: Result<Seq<(VdfTokenType, Seq<char>)>, Seq<char>>,
) -> Result<Seq<(VdfTokenType, Seq<char>)>, Seq<char>> {
    match r {
        Ok(ts) => Ok(pre + ts),
        Err(e) => Err(e),
    }
}

/// The tokens of the text `s`, which starts at byte offset `pos` of the
/// input, or the message of the first error. Whitespace separates tokens; a
/// token is `{`, `}`, or a string between double quotes (with no escapes).
pub open spec fn lex(s: Seq<char>, pos: nat) -> Result<Seq<(VdfTokenType, Seq<char>)>, Seq<char>>
    decreases s.len(),
{
    if s.len() == 0 {
        Ok(Seq::empty())
    } else {
        let c = s[0];
        if is_unicode_whitespace(c) {
            lex(s.drop_first(), pos + char_width(c))
        } else if c == '{' {
            prepend_token((VdfTokenType::BraceStart, "{"@), lex(s.drop_first(), pos + 1))
        } else if c == '}' {
            prepend_token((VdfTokenType::BraceEnd, "}"@), lex(s.drop_first(), pos + 1))
        } else if c == '"' {
            match find_quote(s.drop_first()) {
                None => Err("unterminated string"@),
                Some(k) => {
                    proof {
                        lemma_find_quote(s.drop_first());
                    }
                    prepend_token(
                        (VdfTokenType::String, s.subrange(1, k + 1)),
                        lex(s.skip(k + 2), pos + utf8_len(s.take(k + 2))),
                    )
                },
            }
        } else {
            Err(unexpected_char_message(c, pos))
        }
    }
}


proof fn lemma_prepend_push(
    pre: Seq<(VdfTokenType, Seq<char>)>,
    t: (VdfTokenType, Seq<char>),
    r: Result<Seq<(VdfTokenType, Seq<char>)>, Seq<char>>,
)
    ensures
        prepend_tokens(pre, prepend_token(t, r)) == prepend_tokens(pre.push(t), r),
{
    match r {
        Ok(ts) => {
            assert(pre + (seq![t] + ts) =~= pre.push(t) + ts);
        },
        Err(_) => {},
    }
}

/// How a returned token list or error relates to a tokenizer outcome.
pub open spec fn tokens_match(
    r: Result<Vec<VdfToken>, String>,
    expected: Result<Seq<(VdfTokenType, Seq<char>)>, Seq<char>>,
) -> bool {
    match (r, expected) {
        (Ok(v), Ok(t)) => v@.map_values(|x: VdfToken| x@) == t,
        (Err(e), Err(m)) => e@ == m,
        _ => false,
    }
}

/// Tokenizes VDF text into strings, `{` and `}` tokens.
pub struct VdfTokenizer<'a> {
    input: &'a str,
    pos: usize,
}

impl<'a> VdfTokenizer<'a> {
    /// The text being tokenized.
    pub closed spec fn text(&self) -> Seq<char> {
        self.input@
    }

    /// A tokenizer over `input`.
    pub fn new(input: &'a str) -> (t: Self)
        ensures
            t.text() == input@,
    {
        VdfTokenizer { input, pos: 0 }
    }

    /// Splits the whole input into tokens, or reports the first error:
    /// a character that cannot start a token, or a string left open.
    pub fn tokenize(&mut self) -> (r: Result<Vec<VdfToken>, String>)
        ensures
            final(self).text() == old(self).text(),
            tokens_match(r, lex(old(self).text(), 0)),
    {
        let chars = chars_of(self.input);
        let total = byte_len(self.input);
        let ghost s = chars@;
        let mut result: Vec<VdfToken> = Vec::new();
        let mut i: usize = 0;
        self.pos = 0;
        assert(s.skip(0) =~= s);
        assert(s.take(0) =~= Seq::<char>::empty());
        assert(result@.map_values(|x: VdfToken| x@) =~= Seq::<(VdfTokenType, Seq<char>)>::empty());
        while i < chars.len()
            invariant
                s == chars@,
                s == self.input@,
                self.input == old(self).input,
                total == utf8_len(s),
                i <= s.len(),
                self.pos == utf8_len(s.take(i as int)),
                lex(s, 0) == prepend_tokens(
                    result@.map_values(|x: VdfToken| x@),
                    lex(s.skip(i as int), self.pos as nat),
                ),
            decreases s.len() - i,
        {
            i = self.skip_whitespace(&chars, i, total);
            if i < chars.len() {
                let c = chars[i];
                let ghost rest = s.skip(i as int);
                let ghost pre = result@.map_values(|x: VdfToken| x@);
                assert(rest[0] == c);
                if c == '{' || c == '}' {
                    proof {
                        lemma_utf8_len_take_succ(s, i as int);
                        lemma_utf8_len_take_le(s, i + 1);
                        assert(rest.drop_first() =~= s.skip(i + 1));
                    }
                    let tok = if c == '{' {
                        VdfToken { token_type: VdfTokenType::BraceStart, value: string_from("{") }
                    } else {
                        VdfToken { token_type: VdfTokenType::BraceEnd, value: string_from("}") }
                    };
                    result.push(tok);
                    self.pos = self.pos + 1;
                    i = i + 1;
                    assert(result@.map_values(|x: VdfToken| x@) =~= pre.push(tok@));
                    proof {
                        lemma_prepend_push(pre, tok@, lex(s.skip(i as int), self.pos as nat));
                    }
                } else if c == '"' {
                    assert(rest.drop_first() =~= s.skip(i + 1));
                    match self.parse_string(&chars, i, total) {
                        Ok((value, next)) => {
                            let ghost k: int = match find_quote(s.skip(i + 1)) {
                                Some(k) => k,
                                None => 0,
                            };
                            proof {
                                lemma_find_quote(s.skip(i + 1));
                            }
                            assert(find_quote(rest.drop_first()) == Some(k));
                            let tok = VdfToken { token_type: VdfTokenType::String, value };
                            assert(rest.subrange(1, k + 1) =~= s.subrange(i + 1, i + k + 1));
                            assert(rest.skip(k + 2) =~= s.skip(next as int));
                            proof {
                                assert(s.take(next as int) =~= s.take(i as int) + rest.take(k + 2));
                                crate::text::lemma_utf8_len_append(s.take(i as int), rest.take(k + 2));
                            }
                            result.push(tok);
                            i = next;
                            assert(result@.map_values(|x: VdfToken| x@) =~= pre.push(tok@));
                            proof {
                                lemma_prepend_push(pre, tok@, lex(s.skip(i as int), self.pos as nat));
                            }
                        },
                        Err(e) => {
                            assert(find_quote(rest.drop_first()) is None);
                            return Err(e);
                        },
                    }
                } else {
                    let mut msg = string_from("unexpected character '");
                    push_char(&mut msg, c);
                    push_str(&mut msg, "' at position ");
                    push_decimal(&mut msg, self.pos as u64);
                    assert(msg@ =~= unexpected_char_message(c, self.pos as nat));
                    return Err(msg);
                }
            }
        }
        assert(s.skip(i as int) =~= Seq::<char>::empty());
        assert(result@.map_values(|x: VdfToken| x@) + Seq::<(VdfTokenType, Seq<char>)>::empty()
            =~= result@.map_values(|x: VdfToken| x@));
        Ok(result)
    }

    /// Advances past whitespace from character `i`, keeping the byte
    /// position in step; returns the first index that is not whitespace.
    fn skip_whitespace(&mut self, chars: &Vec<char>, i: usize, total: usize) -> (next: usize)
        requires
            i <= chars@.len(),
            total == utf8_len(chars@),
            old(self).pos == utf8_len(chars@.take(i as int)),
        ensures
            final(self).input == old(self).input,
            i <= next <= chars@.len(),
            next < chars@.len() ==> !is_unicode_whitespace(chars@[next as int]),
            final(self).pos == utf8_len(chars@.take(next as int)),
            lex(chars@.skip(i as int), old(self).pos as nat) == lex(
                chars@.skip(next as int),
                final(self).pos as nat,
            ),
    {
        let mut j = i;
        while j < chars.len()
            invariant
                self.input == old(self).input,
                i <= j <= chars@.len(),
                total == utf8_len(chars@),
                self.pos == utf8_len(chars@.take(j as int)),
                lex(chars@.skip(i as int), old(self).pos as nat) == lex(
                    chars@.skip(j as int),
                    self.pos as nat,
                ),
            decreases chars@.len() - j,
        {
            let c = chars[j];
            if !char_is_whitespace(c) {
                return j;
            }
            proof {
                lemma_utf8_len_take_succ(chars@, j as int);
                lemma_utf8_len_take_le(chars@, j + 1);
                assert(chars@.skip(j as int)[0] == c);
                assert(chars@.skip(j as int).drop_first() =~= chars@.skip(j + 1));
            }
            self.pos = self.pos + utf8_width(c);
            j = j + 1;
        }
        j
    }

    /// Reads the string whose opening quote is at character `i`; returns its
    /// contents and the index just past the closing quote, keeping the byte
    /// position in step.
    fn parse_string(&mut self, chars: &Vec<char>, i: usize, total: usize) -> (r: Result<(String, usize), String>)
        requires
            i < chars@.len(),
            chars@[i as int] == '"',
            total == utf8_len(chars@),
            old(self).pos == utf8_len(chars@.take(i as int)),
        ensures
            final(self).input == old(self).input,
            match find_quote(chars@.skip(i + 1)) {
                Some(k) => r matches Ok((v, next)) && next == i + k + 2 && next <= chars@.len()
                    && v@ == chars@.subrange(i + 1, i + k + 1)
                    && final(self).pos == utf8_len(chars@.take(next as int)),
                None => r matches Err(e) && e@ == "unterminated string"@,
            },
    {
        let n = chars.len();
        let start = i + 1;
        let mut j = start;
        while j < n
            invariant
                n == chars@.len(),
                total == utf8_len(chars@),
                self.input == old(self).input,
                i + 1 == start <= j <= chars@.len(),
                forall|a: int| start <= a < j ==> chars@[a] != '"',
            decreases chars@.len() - j,
        {
            if chars[j] == '"' {
                let value = string_of_range(chars, start, j);
                let ghost t = chars@.skip(i + 1);
                proof {
                    lemma_find_quote(t);
                    assert(t[j - start] == '"');
                    match find_quote(t) {
                        Some(k) => {
                            if k < j - start {
                                assert(t[k] == chars@[start + k]);
                            }
                            assert(k == j - start);
                        },
                        None => {},
                    }
                    crate::text::lemma_utf8_len_take_le(chars@, j + 1);
                    assert(chars@.take(j + 1) =~= chars@.take(i as int) + chars@.subrange(i as int, j + 1));
                    crate::text::lemma_utf8_len_append(chars@.take(i as int), chars@.subrange(i as int, j + 1));
                    assert(chars@.take(j + 1).len() == j + 1);
                }
                self.pos = byte_prefix_len(chars, j + 1, total);
                return Ok((value, j + 1));
            }
            j = j + 1;
        }
        proof {
            let t = chars@.skip(i + 1);
            lemma_find_quote(t);
            match find_quote(t) {
                Some(k) => {
                    assert(t[k] == chars@[start + k]);
                },
                None => {},
            }
        }
        Err(string_from("unterminated string"))
    }
}

/// UTF-8 length of the first `n` characters.
fn byte_prefix_len(chars: &Vec<char>, n: usize, total: usize) -> (b: usize)
    requires
        n <= chars@.len(),
        total == utf8_len(chars@),
    ensures
        b == utf8_len(chars@.take(n as int)),
{
    let mut b: usize = 0;
    let mut j: usize = 0;
    assert(chars@.take(0) =~= Seq::<char>::empty());
    while j < n
        invariant
            j <= n <= chars@.len(),
            total == utf8_len(chars@),
            b == utf8_len(chars@.take(j as int)),
        decreases n - j,
    {
        proof {
            lemma_utf8_len_take_succ(chars@, j as int);
            lemma_utf8_len_take_le(chars@, j + 1);
        }
        b = b + utf8_width(chars[j]);
        j = j + 1;
    }
    b
}


/// `frames` with its last frame replaced by `m`.
pub open spec fn set_top(frames: Seq<Map<Seq<char>, VdfData>>, m: Map<Seq<char>, VdfData>) -> Seq<
    Map<Seq<char>, VdfData>,
> {
    frames.update(frames.len() - 1, m)
}

/// Reading `toks` with open frames `frames` (the root first, the innermost
/// open block last) whose blocks sit under `keys` in their parents. A string
/// followed by a string sets a pair in the innermost frame; a string followed
/// by `{` opens a frame; `}` closes the innermost frame into its parent; a
/// stray `{` is ignored. At the end the root frame is the result, and a
/// block still open there is an error.
pub open spec fn run_tokens(
    frames: Seq<Map<Seq<char>, VdfData>>,
    keys: Seq<Seq<char>>,
    toks: Seq<(VdfTokenType, Seq<char>)>,
) -> Result<Map<Seq<char>, VdfData>, Seq<char>>
    decreases toks.len(),
{
    if toks.len() == 0 {
        if frames.len() <= 1 {
            Ok(frames.last())
        } else {
            Err("unexpected end of tokens inside a block"@)
        }
    } else {
        let t = toks[0];
        match t.0 {
            VdfTokenType::String => {
                if toks.len() < 2 {
                    Err("unexpected end of tokens after string"@)
                } else {
                    let next = toks[1];
                    match next.0 {
                        VdfTokenType::String => run_tokens(
                            set_top(frames, frames.last().insert(t.1, VdfData::Text(next.1))),
                            keys,
                            toks.skip(2),
                        ),
                        VdfTokenType::BraceStart => run_tokens(
                            frames.push(Map::empty()),
                            keys.push(t.1),
                            toks.skip(2),
                        ),
                        VdfTokenType::BraceEnd => Err("unexpected token BraceEnd after string"@),
                    }
                }
            },
            VdfTokenType::BraceEnd => {
                if frames.len() <= 1 {
                    Err("unexpected closing brace at root level"@)
                } else {
                    let parent = frames.drop_last();
                    run_tokens(
                        set_top(parent, parent.last().insert(keys.last(), VdfData::Table(frames.last()))),
                        keys.drop_last(),
                        toks.drop_first(),
                    )
                }
            },
            VdfTokenType::BraceStart => run_tokens(frames, keys, toks.drop_first()),
        }
    }
}

/// The block that a token list denotes: it must start with a string.
pub open spec fn parse_tokens(toks: Seq<(VdfTokenType, Seq<char>)>) -> Result<
    Map<Seq<char>, VdfData>,
    Seq<char>,
> {
    if toks.len() == 0 || toks[0].0 != VdfTokenType::String {
        Err("expected root string token"@)
    } else {
        run_tokens(seq![Map::empty()], Seq::empty(), toks)
    }
}

/// The root block that VDF text denotes, or the first error message.
pub open spec fn vdf_parse(text: Seq<char>) -> Result<Map<Seq<char>, VdfData>, Seq<char>> {
    match lex(text, 0) {
        Ok(toks) => parse_tokens(toks),
        Err(e) => Err(e),
    }
}

/// How a returned block or error relates to a parse outcome.
pub open spec fn block_matches(
    r: Result<VdfBlock, String>,
    expected: Result<Map<Seq<char>, VdfData>, Seq<char>>,
) -> bool {
    match (r, expected) {
        (Ok(b), Ok(m)) => b@ == m,
        (Err(e), Err(m)) => e@ == m,
        _ => false,
    }
}

/// Parses VDF text into a root block.
pub fn parse(input: &str) -> (r: Result<VdfBlock, String>)
    ensures
        block_matches(r, vdf_parse(input@)),
{
    let mut tokenizer = VdfTokenizer::new(input);
    let tokens = match tokenizer.tokenize() {
        Ok(t) => t,
        Err(e) => {
            return Err(e);
        },
    };
    let ghost toks = tokens@.map_values(|x: VdfToken| x@);
    assert(lex(input@, 0) == Ok::<Seq<(VdfTokenType, Seq<char>)>, Seq<char>>(toks));
    if tokens.len() == 0 || tokens[0].token_type != VdfTokenType::String {
        return Err(string_from("expected root string token"));
    }
    let mut stack: Vec<VdfBlock> = Vec::new();
    stack.push(VdfBlock::new());
    let mut keys: Vec<String> = Vec::new();
    let mut i: usize = 0;
    let n = tokens.len();
    assert(stack@.map_values(|b: VdfBlock| b@) =~= seq![Map::<Seq<char>, VdfData>::empty()]);
    assert(keys@.map_values(|k: String| k@) =~= Seq::<Seq<char>>::empty());
    assert(toks.skip(0) =~= toks);
    while i < n
        invariant
            n == tokens@.len(),
            toks == tokens@.map_values(|x: VdfToken| x@),
            vdf_parse(input@) == parse_tokens(toks),
            i <= n,
            stack@.len() >= 1,
            keys@.len() + 1 == stack@.len(),
            parse_tokens(toks) == run_tokens(
                stack@.map_values(|b: VdfBlock| b@),
                keys@.map_values(|k: String| k@),
                toks.skip(i as int),
            ),
        decreases n - i,
    {
        let ghost frames = stack@.map_values(|b: VdfBlock| b@);
        let ghost kv = keys@.map_values(|k: String| k@);
        let ghost rest = toks.skip(i as int);
        assert(rest[0] == tokens@[i as int]@);
        let tok = &tokens[i];
        match tok.token_type {
            VdfTokenType::String => {
                if i + 1 >= n {
                    assert(rest.len() < 2);
                    assert(run_tokens(frames, kv, rest) == Err::<Map<Seq<char>, VdfData>, Seq<char>>(
                        "unexpected end of tokens after string"@,
                    ));
                    return Err(string_from("unexpected end of tokens after string"));
                }
                let next = &tokens[i + 1];
                assert(rest[1] == next@);
                assert(rest.skip(2) =~= toks.skip(i + 2));
                match next.token_type {
                    VdfTokenType::String => {
                        let mut top = stack.pop().unwrap();
                        top.insert(tok.value.clone(), VdfValue::String(next.value.clone()));
                        stack.push(top);
                        assert(stack@.map_values(|b: VdfBlock| b@) =~= set_top(
                            frames,
                            frames.last().insert(tok.value@, VdfData::Text(next.value@)),
                        ));
                        i = i + 1;
                    },
                    VdfTokenType::BraceStart => {
                        stack.push(VdfBlock::new());
                        keys.push(tok.value.clone());
                        assert(stack@.map_values(|b: VdfBlock| b@) =~= frames.push(Map::empty()));
                        assert(keys@.map_values(|k: String| k@) =~= kv.push(tok.value@));
                        i = i + 1;
                    },
                    VdfTokenType::BraceEnd => {
                        return Err(string_from("unexpected token BraceEnd after string"));
                    },
                }
            },
            VdfTokenType::BraceEnd => {
                if stack.len() == 1 {
                    return Err(string_from("unexpected closing brace at root level"));
                }
                let child = stack.pop().unwrap();
                let key = keys.pop().unwrap();
                let mut parent = stack.pop().unwrap();
                let ghost pf = frames.drop_last();
                assert(child@ == frames.last());
                assert(key@ == kv.last());
                assert(parent@ == pf.last());
                parent.insert(key, VdfValue::Block(child));
                stack.push(parent);
                assert(stack@.map_values(|b: VdfBlock| b@) =~= set_top(
                    pf,
                    pf.last().insert(kv.last(), VdfData::Table(frames.last())),
                ));
                assert(keys@.map_values(|k: String| k@) =~= kv.drop_last());
                assert(rest.drop_first() =~= toks.skip(i + 1));
            },
            VdfTokenType::BraceStart => {
                assert(rest.drop_first() =~= toks.skip(i + 1));
            },
        }
        i = i + 1;
    }
    assert(toks.skip(n as int) =~= Seq::<(VdfTokenType, Seq<char>)>::empty());
    if stack.len() > 1 {
        return Err(string_from("unexpected end of tokens inside a block"));
    }
    let root = stack.pop().unwrap();
    Ok(root)
}

} // verus!
