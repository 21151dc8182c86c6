use vstd::prelude::*;

use crate::value::Value;
use crate::value::table_lookup;

verus! {

/// One traversal step, as the contracts speak of it: a table key name as a
/// character sequence, or an array index as an unbounded integer.
pub enum KeyModel {
    Table(Seq<char>),
    Array(int),
}

/// One traversal step: descend into a table by key name, or into an array by
/// zero-based position.
#[derive(Debug, PartialEq, Eq)]
pub enum TomlKey {
    Table(String),
    Array(usize),
}

impl View for TomlKey {
    type V = KeyModel;

    open spec fn view(&self) -> KeyModel {
        match self {
            TomlKey::Table(name) => KeyModel::Table(name@),
            TomlKey::Array(i) => KeyModel::Array(*i as int),
        }
    }
}

/// The state of the path scanner between two characters.
#[derive(Debug, Clone, Copy)]
pub enum ParseState {
    /// Nothing read yet.
    Start,
    /// A dot was read and the key name after it has not begun.
    EmptyKey,
    /// Inside a key name.
    PartialKey,
    /// An opening bracket was read and the index after it has not begun.
    EmptyIndex,
    /// Inside a bracketed index.
    PartialIndex,
    /// A closing bracket was just read; the path may end here.
    AfterIndex,
}

/// Why a path expression was rejected.
#[derive(Debug, PartialEq, Eq)]
pub enum ParseError {
    /// A `]` with no `[` open.
    MissingOpeningBracket,
    /// Two dots in a row.
    ConsecutiveDots,
    /// A `.` between `[` and `]`.
    DotInsideBrackets,
    /// A `[` between `[` and `]`.
    NestedBrackets,
    /// `[]` with nothing between the brackets.
    EmptyBrackets,
    /// Bracketed text that is not a decimal index the machine can hold.
    InvalidNumber(String),
    /// An empty path expression.
    Blank,
    /// The path ends just after a dot.
    EndsWithDot,
    /// The path ends between `[` and `]`.
    UnclosedBracket,
}

/// `ParseError`, as the contracts speak of it.
pub enum ParseErrorModel {
    MissingOpeningBracket,
    ConsecutiveDots,
    DotInsideBrackets,
    NestedBrackets,
    EmptyBrackets,
    InvalidNumber(Seq<char>),
    Blank,
    EndsWithDot,
    UnclosedBracket,
}

impl View for ParseError {
    type V = ParseErrorModel;

    open spec fn view(&self) -> ParseErrorModel {
        match self {
            ParseError::MissingOpeningBracket => ParseErrorModel::MissingOpeningBracket,
            ParseError::ConsecutiveDots => ParseErrorModel::ConsecutiveDots,
            ParseError::DotInsideBrackets => ParseErrorModel::DotInsideBrackets,
            ParseError::NestedBrackets => ParseErrorModel::NestedBrackets,
            ParseError::EmptyBrackets => ParseErrorModel::EmptyBrackets,
            ParseError::InvalidNumber(text) => ParseErrorModel::InvalidNumber(text@),
            ParseError::Blank => ParseErrorModel::Blank,
            ParseError::EndsWithDot => ParseErrorModel::EndsWithDot,
            ParseError::UnclosedBracket => ParseErrorModel::UnclosedBracket,
        }
    }
}

/// A decimal digit.
pub open spec fn is_ascii_digit(c: char) -> bool {
    48 <= c as u32 <= 57
}

pub open spec fn all_digits(s: Seq<char>) -> bool {
    forall|i: int| 0 <= i < s.len() ==> is_ascii_digit(#[trigger] s[i])
}

/// The number the digit characters `s` denote in decimal.
pub open spec fn digits_val(s: Seq<char>) -> int
    decreases s.len(),
{
    if s.len() == 0 {
        0
    } else {
        digits_val(s.drop_last()) * 10 + (s.last() as u32 - 48)
    }
}

/// The bracketed text `s` denotes an array index the machine can hold.
pub open spec fn index_valid(s: Seq<char>) -> bool {
    s.len() > 0 && all_digits(s) && digits_val(s) <= usize::MAX as int
}

proof fn lemma_digits_val_nonneg(s: Seq<char>)
    requires
        all_digits(s),
    ensures
        digits_val(s) >= 0,
    decreases s.len(),
{
    if s.len() > 0 {
        assert(all_digits(s.drop_last()));
        lemma_digits_val_nonneg(s.drop_last());
    }
}

/// A digit string denotes at least as much as any of its prefixes.
proof fn lemma_digits_val_prefix(s: Seq<char>, k: int)
    requires
        all_digits(s),
        0 <= k <= s.len(),
    ensures
        digits_val(s.subrange(0, k)) <= digits_val(s),
    decreases s.len() - k,
{
    if k == s.len() {
        assert(s.subrange(0, k) =~= s);
    } else {
        let shorter = s.subrange(0, k);
        let longer = s.subrange(0, k + 1);
        assert(longer.drop_last() =~= shorter);
        assert(all_digits(shorter));
        lemma_digits_val_nonneg(shorter);
        assert(digits_val(longer) == digits_val(shorter) * 10 + (longer.last() as u32 - 48));
        assert(digits_val(shorter) * 10 >= digits_val(shorter));
        lemma_digits_val_prefix(s, k + 1);
    }
}

/// Reads the characters of `source` between `start` and `end` as a decimal
/// array index, if they form one the machine can hold.
fn parse_index(source: &str, start: usize, end: usize) -> (r: Option<usize>)
    requires
        start <= end <= source@.len(),
    ensures
        r matches Some(n) ==> index_valid(source@.subrange(start as int, end as int))
            && n as int == digits_val(source@.subrange(start as int, end as int)),
        r is None ==> !index_valid(source@.subrange(start as int, end as int)),
{
    let ghost digits = source@.subrange(start as int, end as int);
    if start == end {
        return None;
    }
    let mut acc: usize = 0;
    let mut j: usize = start;
    while j < end
        invariant
            start <= j <= end <= source@.len(),
            digits == source@.subrange(start as int, end as int),
            all_digits(source@.subrange(start as int, j as int)),
            acc as int == digits_val(source@.subrange(start as int, j as int)),
        decreases end - j,
    {
        let c = source.get_char(j);
        let d = c as u32;
        if d < 48 || d > 57 {
            proof {
                assert(digits[j - start] == c);
            }
            return None;
        }
        let step: usize = (d - 48) as usize;
        let grown = match acc.checked_mul(10) {
            Some(m) => m.checked_add(step),
            None => None,
        };
        proof {
            let pre = source@.subrange(start as int, j as int);
            let post = source@.subrange(start as int, j as int + 1);
            assert(post.drop_last() =~= pre);
            assert(post.last() == c);
            assert(all_digits(post));
            assert(digits_val(post) == acc as int * 10 + step as int);
        }
        match grown {
            Some(v) => {
                acc = v;
                j = j + 1;
            },
            None => {
                proof {
                    let post = source@.subrange(start as int, j as int + 1);
                    assert(digits_val(post) > usize::MAX as int);
                    if all_digits(digits) {
                        lemma_digits_val_prefix(digits, j as int + 1 - start);
                        assert(digits.subrange(0, j as int + 1 - start) =~= post);
                        assert(digits_val(digits) > usize::MAX as int);
                    }
                }
                return None;
            },
        }
    }
    proof {
        assert(source@.subrange(start as int, j as int) =~= digits);
    }
    Some(acc)
}

/// What the scanner yields at end of input: a final key still being read is
/// flushed; a path may end only after a key or a closing bracket.
pub open spec fn finish(st: ParseState, buf: Seq<char>, acc: Seq<KeyModel>) -> Result<
    Seq<KeyModel>,
    ParseErrorModel,
> {
    match st {
        ParseState::Start => Err(ParseErrorModel::Blank),
        ParseState::EmptyKey => Err(ParseErrorModel::EndsWithDot),
        ParseState::PartialKey => Ok(acc.push(KeyModel::Table(buf))),
        ParseState::EmptyIndex => Err(ParseErrorModel::UnclosedBracket),
        ParseState::PartialIndex => Err(ParseErrorModel::UnclosedBracket),
        ParseState::AfterIndex => Ok(acc),
    }
}

/// The path scanner: one left-to-right pass over the remaining characters `s`,
/// in state `st`, with `buf` the characters of the key or index being read and
/// `acc` the steps already read.
pub open spec fn run(s: Seq<char>, st: ParseState, buf: Seq<char>, acc: Seq<KeyModel>) -> Result<
    Seq<KeyModel>,
    ParseErrorModel,
>
    decreases s.len(),
{
    if s.len() == 0 {
        finish(st, buf, acc)
    } else {
        let c = s[0];
        let rest = s.skip(1);
        match st {
            ParseState::Start => {
                if c == '.' {
                    run(rest, ParseState::EmptyKey, buf, acc)
                } else if c == '[' {
                    run(rest, ParseState::EmptyIndex, buf, acc)
                } else if c == ']' {
                    Err(ParseErrorModel::MissingOpeningBracket)
                } else {
                    run(rest, ParseState::PartialKey, buf.push(c), acc)
                }
            },
            ParseState::EmptyKey => {
                if c == '.' {
                    Err(ParseErrorModel::ConsecutiveDots)
                } else if c == '[' {
                    run(rest, ParseState::EmptyIndex, buf, acc)
                } else if c == ']' {
                    Err(ParseErrorModel::MissingOpeningBracket)
                } else {
                    run(rest, ParseState::PartialKey, buf.push(c), acc)
                }
            },
            ParseState::PartialKey => {
                if c == '.' {
                    run(rest, ParseState::EmptyKey, Seq::empty(), acc.push(KeyModel::Table(buf)))
                } else if c == '[' {
                    run(rest, ParseState::EmptyIndex, Seq::empty(), acc.push(KeyModel::Table(buf)))
                } else if c == ']' {
                    Err(ParseErrorModel::MissingOpeningBracket)
                } else {
                    run(rest, ParseState::PartialKey, buf.push(c), acc)
                }
            },
            ParseState::EmptyIndex => {
                if c == '.' {
                    Err(ParseErrorModel::DotInsideBrackets)
                } else if c == '[' {
                    Err(ParseErrorModel::NestedBrackets)
                } else if c == ']' {
                    Err(ParseErrorModel::EmptyBrackets)
                } else {
                    run(rest, ParseState::PartialIndex, buf.push(c), acc)
                }
            },
            ParseState::PartialIndex => {
                if c == '.' {
                    Err(ParseErrorModel::DotInsideBrackets)
                } else if c == '[' {
                    Err(ParseErrorModel::NestedBrackets)
                } else if c == ']' {
                    if index_valid(buf) {
                        run(
                            rest,
                            ParseState::AfterIndex,
                            Seq::empty(),
                            acc.push(KeyModel::Array(digits_val(buf))),
                        )
                    } else {
                        Err(ParseErrorModel::InvalidNumber(buf))
                    }
                } else {
                    run(rest, ParseState::PartialIndex, buf.push(c), acc)
                }
            },
            ParseState::AfterIndex => {
                if c == '.' {
                    run(rest, ParseState::EmptyKey, buf, acc)
                } else if c == '[' {
                    run(rest, ParseState::EmptyIndex, buf, acc)
                } else if c == ']' {
                    Err(ParseErrorModel::MissingOpeningBracket)
                } else {
                    run(rest, ParseState::PartialKey, buf.push(c), acc)
                }
            },
        }
    }
}

/// What parsing a path expression yields: the single dot is the identity path;
/// everything else goes through the scanner from its start state.
pub open spec fn parse_model(s: Seq<char>) -> Result<Seq<KeyModel>, ParseErrorModel> {
    if s.len() == 1 && s[0] == '.' {
        Ok(Seq::empty())
    } else {
        run(s, ParseState::Start, Seq::empty(), Seq::empty())
    }
}

/// The steps of `keys`, as the contracts speak of them.
pub open spec fn keys_view(keys: Seq<TomlKey>) -> Seq<KeyModel> {
    keys.map_values(|k: TomlKey| k@)
}

/// An ordered sequence of traversal steps: a parsed path expression.
/// Zero steps denote the whole document.
#[derive(Debug, PartialEq, Eq)]
pub struct KeyPattern {
    pub keys: Vec<TomlKey>,
}

impl View for KeyPattern {
    type V = Seq<KeyModel>;

    open spec fn view(&self) -> Seq<KeyModel> {
        keys_view(self.keys@)
    }
}

impl KeyPattern {
    /// Parse a path expression into its sequence of steps.
    pub fn parse(source: &str) -> (r: Result<Self, ParseError>)
        ensures
            r matches Ok(pattern) ==> parse_model(source@) == Ok::<
                Seq<KeyModel>,
                ParseErrorModel,
            >(pattern@),
            r matches Err(e) ==> parse_model(source@) == Err::<
                Seq<KeyModel>,
                ParseErrorModel,
            >(e@),
    {
        let len = source.unicode_len();
        if len == 1 && source.get_char(0) == '.' {
            let keys: Vec<TomlKey> = Vec::new();
            proof {
                assert(keys_view(keys@) =~= Seq::<KeyModel>::empty());
            }
            return Ok(Self { keys });
        }
        let mut keys: Vec<TomlKey> = Vec::new();
        let mut state = ParseState::Start;
        let mut start: usize = 0;
        let mut i: usize = 0;
        proof {
            assert(source@.subrange(0, 0) =~= Seq::<char>::empty());
            assert(keys_view(keys@) =~= Seq::<KeyModel>::empty());
            assert(source@.skip(0) =~= source@);
        }
        while i < len
            invariant
                i <= len,
                len == source@.len(),
                start <= i,
                !(source@.len() == 1 && source@[0] == '.'),
                state matches (ParseState::PartialKey | ParseState::PartialIndex) || start == i,
                run(source@, ParseState::Start, Seq::empty(), Seq::empty()) == run(
                    source@.skip(i as int),
                    state,
                    source@.subrange(start as int, i as int),
                    keys_view(keys@),
                ),
            decreases len - i,
        {
            let c = source.get_char(i);
            let ghost remaining = source@.skip(i as int);
            let ghost buf = source@.subrange(start as int, i as int);
            let ghost acc = keys_view(keys@);
            proof {
                assert(remaining.len() > 0);
                assert(remaining[0] == c);
                assert(remaining.skip(1) =~= source@.skip(i as int + 1));
                assert(buf.push(c) =~= source@.subrange(start as int, i as int + 1));
                assert(buf.len() == 0 ==> buf =~= Seq::<char>::empty());
            }
            match state {
                ParseState::Start => {
                    if c == '.' {
                        state = ParseState::EmptyKey;
                        start = i + 1;
                    } else if c == '[' {
                        state = ParseState::EmptyIndex;
                        start = i + 1;
                    } else if c == ']' {
                        return Err(ParseError::MissingOpeningBracket);
                    } else {
                        state = ParseState::PartialKey;
                    }
                },
                ParseState::EmptyKey => {
                    if c == '.' {
                        return Err(ParseError::ConsecutiveDots);
                    } else if c == '[' {
                        state = ParseState::EmptyIndex;
                        start = i + 1;
                    } else if c == ']' {
                        return Err(ParseError::MissingOpeningBracket);
                    } else {
                        state = ParseState::PartialKey;
                    }
                },
                ParseState::PartialKey => {
                    if c == '.' {
                        let name = source.substring_char(start, i).to_owned();
                        keys.push(TomlKey::Table(name));
                        proof {
                            assert(keys_view(keys@) =~= acc.push(KeyModel::Table(buf)));
                        }
                        state = ParseState::EmptyKey;
                        start = i + 1;
                    } else if c == '[' {
                        let name = source.substring_char(start, i).to_owned();
                        keys.push(TomlKey::Table(name));
                        proof {
                            assert(keys_view(keys@) =~= acc.push(KeyModel::Table(buf)));
                        }
                        state = ParseState::EmptyIndex;
                        start = i + 1;
                    } else if c == ']' {
                        return Err(ParseError::MissingOpeningBracket);
                    } else {
                        // the key grows by this character
                    }
                },
                ParseState::EmptyIndex => {
                    if c == '.' {
                        return Err(ParseError::DotInsideBrackets);
                    } else if c == '[' {
                        return Err(ParseError::NestedBrackets);
                    } else if c == ']' {
                        return Err(ParseError::EmptyBrackets);
                    } else {
                        state = ParseState::PartialIndex;
                    }
                },
                ParseState::PartialIndex => {
                    if c == '.' {
                        return Err(ParseError::DotInsideBrackets);
                    } else if c == '[' {
                        return Err(ParseError::NestedBrackets);
                    } else if c == ']' {
                        match parse_index(source, start, i) {
                            Some(n) => {
                                keys.push(TomlKey::Array(n));
                                proof {
                                    assert(keys_view(keys@) =~= acc.push(
                                        KeyModel::Array(digits_val(buf)),
                                    ));
                                }
                                state = ParseState::AfterIndex;
                                start = i + 1;
                            },
                            None => {
                                let text = source.substring_char(start, i).to_owned();
                                return Err(ParseError::InvalidNumber(text));
                            },
                        }
                    } else {
                        // the index grows by this character
                    }
                },
                ParseState::AfterIndex => {
                    if c == '.' {
                        state = ParseState::EmptyKey;
                        start = i + 1;
                    } else if c == '[' {
                        state = ParseState::EmptyIndex;
                        start = i + 1;
                    } else if c == ']' {
                        return Err(ParseError::MissingOpeningBracket);
                    } else {
                        state = ParseState::PartialKey;
                    }
                },
            }
            i = i + 1;
            proof {
                assert(source@.subrange(start as int, i as int).len() == 0 ==> source@.subrange(
                    start as int,
                    i as int,
                ) =~= Seq::<char>::empty());
            }
        }
        proof {
            assert(source@.skip(i as int).len() == 0);
        }
        match state {
            ParseState::Start => Err(ParseError::Blank),
            ParseState::EmptyKey => Err(ParseError::EndsWithDot),
            ParseState::PartialKey => {
                let ghost acc = keys_view(keys@);
                let ghost buf = source@.subrange(start as int, i as int);
                let name = source.substring_char(start, i).to_owned();
                keys.push(TomlKey::Table(name));
                proof {
                    assert(keys_view(keys@) =~= acc.push(KeyModel::Table(buf)));
                }
                Ok(Self { keys })
            },
            ParseState::EmptyIndex => Err(ParseError::UnclosedBracket),
            ParseState::PartialIndex => Err(ParseError::UnclosedBracket),
            ParseState::AfterIndex => Ok(Self { keys }),
        }
    }
}

/// Why a lookup failed: the step's target is absent, or the value at hand has
/// the wrong shape for the step. Either way the offending step is carried.
#[derive(Debug, PartialEq, Eq)]
pub enum LookupError {
    NotFound(TomlKey),
    TypeMismatch(TomlKey),
}

/// `LookupError`, as the contracts speak of it.
pub enum LookupErrorModel {
    NotFound(KeyModel),
    TypeMismatch(KeyModel),
}

impl View for LookupError {
    type V = LookupErrorModel;

    open spec fn view(&self) -> LookupErrorModel {
        match self {
            LookupError::NotFound(k) => LookupErrorModel::NotFound(k@),
            LookupError::TypeMismatch(k) => LookupErrorModel::TypeMismatch(k@),
        }
    }
}

/// What walking `v` along `keys` yields: the addressed sub-value, or the first
/// step that could not be taken. A table-key step needs a table that holds the
/// key; an array-index step needs an array that is long enough.
pub open spec fn find_model(v: Value, keys: Seq<KeyModel>) -> Result<Value, LookupErrorModel>
    decreases keys.len(),
{
    if keys.len() == 0 {
        Ok(v)
    } else {
        match keys[0] {
            KeyModel::Table(name) => match v {
                Value::Table(entries) => match table_lookup(entries@, name) {
                    Some(sub) => find_model(sub, keys.skip(1)),
                    None => Err(LookupErrorModel::NotFound(KeyModel::Table(name))),
                },
                _ => Err(LookupErrorModel::TypeMismatch(KeyModel::Table(name))),
            },
            KeyModel::Array(idx) => match v {
                Value::Array(items) => if 0 <= idx < items@.len() {
                    find_model(items@[idx], keys.skip(1))
                } else {
                    Err(LookupErrorModel::NotFound(KeyModel::Array(idx)))
                },
                _ => Err(LookupErrorModel::TypeMismatch(KeyModel::Array(idx))),
            },
        }
    }
}

/// The first entry of `entries` whose key equals `name`, if any.
fn table_get<'a>(entries: &'a Vec<(String, Value)>, name: &String) -> (r: Option<&'a Value>)
    ensures
        r matches Some(v) ==> table_lookup(entries@, name@) == Some(*v),
        r is None ==> table_lookup(entries@, name@) is None,
{
    let mut j: usize = 0;
    proof {
        assert(entries@.skip(0) =~= entries@);
    }
    while j < entries.len()
        invariant
            j <= entries@.len(),
            table_lookup(entries@, name@) == table_lookup(entries@.skip(j as int), name@),
        decreases entries@.len() - j,
    {
        proof {
            assert(entries@.skip(j as int)[0] == entries@[j as int]);
            assert(entries@.skip(j as int).skip(1) =~= entries@.skip(j as int + 1));
        }
        let entry = &entries[j];
        if entry.0 == *name {
            return Some(&entry.1);
        }
        j = j + 1;
    }
    proof {
        assert(entries@.skip(j as int).len() == 0);
    }
    None
}

impl KeyPattern {
    /// Walk `root` along the steps of this pattern and return a reference to
    /// the addressed sub-value, or the first step that could not be taken.
    pub fn find<'a>(&self, root: &'a Value) -> (r: Result<&'a Value, LookupError>)
        ensures
            r matches Ok(v) ==> find_model(*root, self@) == Ok::<Value, LookupErrorModel>(*v),
            r matches Err(e) ==> find_model(*root, self@) == Err::<Value, LookupErrorModel>(e@),
    {
        let mut current: &'a Value = root;
        let mut i: usize = 0;
        proof {
            assert(self@.skip(0) =~= self@);
        }
        while i < self.keys.len()
            invariant
                i <= self.keys@.len(),
                self@.len() == self.keys@.len(),
                find_model(*root, self@) == find_model(*current, self@.skip(i as int)),
            decreases self.keys@.len() - i,
        {
            let ghost rest = self@.skip(i as int);
            proof {
                assert(rest.len() > 0);
                assert(rest[0] == self.keys@[i as int]@);
                assert(rest.skip(1) =~= self@.skip(i as int + 1));
            }
            let k = &self.keys[i];
            match k {
                TomlKey::Table(name) => {
                    match current {
                        Value::Table(entries) => {
                            match table_get(entries, name) {
                                Some(v) => {
                                    current = v;
                                },
                                None => {
                                    return Err(
                                        LookupError::NotFound(TomlKey::Table(name.clone())),
                                    );
                                },
                            }
                        },
                        _ => {
                            return Err(LookupError::TypeMismatch(TomlKey::Table(name.clone())));
                        },
                    }
                },
                TomlKey::Array(n) => {
                    match current {
                        Value::Array(items) => {
                            if *n < items.len() {
                                current = &items[*n];
                            } else {
                                return Err(LookupError::NotFound(TomlKey::Array(*n)));
                            }
                        },
                        _ => {
                            return Err(LookupError::TypeMismatch(TomlKey::Array(*n)));
                        },
                    }
                },
            }
            i = i + 1;
        }
        proof {
            assert(self@.skip(i as int).len() == 0);
        }
        Ok(current)
    }
}

/// The character for the decimal digit `d`.
pub open spec fn digit_char(d: int) -> char {
    ((d + 48) as u8) as char
}

/// The decimal digits of `n`, most significant first.
pub open spec fn dec_digits(n: nat) -> Seq<char>
    decreases n,
{
    if n < 10 {
        seq![digit_char(n as int)]
    } else {
        dec_digits(n / 10).push(digit_char((n % 10) as int))
    }
}

/// The textual form of one step: `.name` for a table key, `.[i]` for an index.
pub open spec fn render_step(k: KeyModel) -> Seq<char> {
    match k {
        KeyModel::Table(name) => seq!['.'] + name,
        KeyModel::Array(i) => seq!['.', '['] + dec_digits(i as nat) + seq![']'],
    }
}

/// The textual form of a whole pattern: its steps' forms, in order.
pub open spec fn render_pattern(ks: Seq<KeyModel>) -> Seq<char>
    decreases ks.len(),
{
    if ks.len() == 0 {
        Seq::empty()
    } else {
        render_step(ks[0]) + render_pattern(ks.skip(1))
    }
}

proof fn lemma_render_pattern_push(ks: Seq<KeyModel>, k: KeyModel)
    ensures
        render_pattern(ks.push(k)) == render_pattern(ks) + render_step(k),
    decreases ks.len(),
{
    if ks.len() == 0 {
        assert(ks.push(k)[0] == k);
        assert(ks.push(k).skip(1) =~= Seq::<KeyModel>::empty());
        assert(render_pattern(ks.push(k)) == render_step(k) + render_pattern(
            Seq::<KeyModel>::empty(),
        ));
        assert(render_step(k) + Seq::<char>::empty() =~= render_step(k));
        assert(Seq::<char>::empty() + render_step(k) =~= render_step(k));
        assert(render_pattern(ks) == Seq::<char>::empty());
    } else {
        assert(ks.push(k)[0] == ks[0]);
        assert(ks.push(k).skip(1) =~= ks.skip(1).push(k));
        assert(render_pattern(ks.push(k)) == render_step(ks[0]) + render_pattern(
            ks.skip(1).push(k),
        ));
        lemma_render_pattern_push(ks.skip(1), k);
        assert(render_pattern(ks) == render_step(ks[0]) + render_pattern(ks.skip(1)));
        assert(render_step(ks[0]) + (render_pattern(ks.skip(1)) + render_step(k)) =~= (render_step(
            ks[0],
        ) + render_pattern(ks.skip(1))) + render_step(k));
    }
}

/// Relies on `String::push`: it appends the one character to the end of the
/// string.
#[verifier::external_body]
fn push_char(s: &mut String, c: char)
    ensures
        final(s)@ == old(s)@.push(c),
{
    s.push(c);
}

/// The decimal form of `n`.
fn dec_string(n: usize) -> (r: String)
    ensures
        r@ == dec_digits(n as nat),
    decreases n,
{
    if n < 10 {
        let mut s = String::new();
        push_char(&mut s, ((n as u8) + 48) as char);
        proof {
            assert(s@ =~= dec_digits(n as nat));
        }
        s
    } else {
        proof {
            assert(n / 10 < n) by (nonlinear_arith)
                requires
                    n >= 10,
            ;
        }
        let mut s = dec_string(n / 10);
        push_char(&mut s, (((n % 10) as u8) + 48) as char);
        proof {
            assert(s@ =~= dec_digits(n as nat));
        }
        s
    }
}

impl KeyPattern {
    /// The textual form of this pattern: `.name` per table key, `.[i]` per
    /// array index.
    pub fn text(&self) -> (r: String)
        ensures
            r@ == render_pattern(self@),
    {
        let mut s = String::new();
        let mut i: usize = 0;
        proof {
            assert(render_pattern(self@.subrange(0, 0)) =~= Seq::<char>::empty());
        }
        while i < self.keys.len()
            invariant
                i <= self.keys@.len(),
                self@.len() == self.keys@.len(),
                s@ == render_pattern(self@.subrange(0, i as int)),
            decreases self.keys@.len() - i,
        {
            let ghost pre = self@.subrange(0, i as int);
            proof {
                assert(self@.subrange(0, i as int + 1) =~= pre.push(self@[i as int]));
                lemma_render_pattern_push(pre, self@[i as int]);
            }
            let k = &self.keys[i];
            match k {
                TomlKey::Table(name) => {
                    push_char(&mut s, '.');
                    s.append(name.as_str());
                },
                TomlKey::Array(n) => {
                    push_char(&mut s, '.');
                    push_char(&mut s, '[');
                    let digits = dec_string(*n);
                    s.append(digits.as_str());
                    push_char(&mut s, ']');
                },
            }
            proof {
                assert(s@ =~= render_pattern(self@.subrange(0, i as int + 1)));
            }
            i = i + 1;
        }
        proof {
            assert(self@.subrange(0, self@.len() as int) =~= self@);
        }
        s
    }
}

} // verus!
