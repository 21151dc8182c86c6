use vstd::prelude::*;

use crate::key::KeyModel;
use crate::key::LookupErrorModel;
use crate::key::ParseErrorModel;
use crate::key::ParseState;
use crate::key::all_digits;
use crate::key::dec_digits;
use crate::key::digit_char;
use crate::key::digits_val;
use crate::key::find_model;
use crate::key::index_valid;
use crate::key::is_ascii_digit;
use crate::key::parse_model;
use crate::key::render_pattern;
use crate::key::render_step;
use crate::key::run;
use crate::value::Value;

verus! {

/// The identity path: the single dot parses to zero steps, and a pattern with
/// zero steps addresses the whole document, whatever tree value that is.
pub proof fn lemma_identity_path(v: Value)
    ensures
        parse_model(seq!['.']) == Ok::<Seq<KeyModel>, ParseErrorModel>(Seq::empty()),
        find_model(v, Seq::empty()) == Ok::<Value, LookupErrorModel>(v),
{
    assert(seq!['.'].len() == 1 && seq!['.'][0] == '.');
}

/// A character that does not steer the path scanner.
pub open spec fn plain_char(c: char) -> bool {
    c != '.' && c != '[' && c != ']'
}

/// A usable key name: nonempty, of characters that do not steer the scanner.
pub open spec fn plain_key(name: Seq<char>) -> bool {
    name.len() > 0 && (forall|i: int| 0 <= i < name.len() ==> plain_char(#[trigger] name[i]))
}

/// The table-key steps for the key names `names`, in order.
pub open spec fn table_steps(names: Seq<Seq<char>>) -> Seq<KeyModel> {
    names.map_values(|name: Seq<char>| KeyModel::Table(name))
}

proof fn lemma_run_extends_key(
    chunk: Seq<char>,
    rest: Seq<char>,
    buf: Seq<char>,
    acc: Seq<KeyModel>,
)
    requires
        forall|i: int| 0 <= i < chunk.len() ==> plain_char(#[trigger] chunk[i]),
    ensures
        run(chunk + rest, ParseState::PartialKey, buf, acc) == run(
            rest,
            ParseState::PartialKey,
            buf + chunk,
            acc,
        ),
    decreases chunk.len(),
{
    if chunk.len() == 0 {
        assert(chunk + rest =~= rest);
        assert(buf + chunk =~= buf);
    } else {
        let s = chunk + rest;
        assert(s[0] == chunk[0]);
        assert(s.skip(1) =~= chunk.skip(1) + rest);
        lemma_run_extends_key(chunk.skip(1), rest, buf.push(chunk[0]), acc);
        assert(buf.push(chunk[0]) + chunk.skip(1) =~= buf + chunk);
    }
}

proof fn lemma_run_key(name: Seq<char>, rest: Seq<char>, acc: Seq<KeyModel>)
    requires
        plain_key(name),
    ensures
        run(name + rest, ParseState::EmptyKey, Seq::empty(), acc) == run(
            rest,
            ParseState::PartialKey,
            name,
            acc,
        ),
{
    let s = name + rest;
    assert(s[0] == name[0]);
    assert(s.skip(1) =~= name.skip(1) + rest);
    lemma_run_extends_key(name.skip(1), rest, Seq::<char>::empty().push(name[0]), acc);
    assert(Seq::<char>::empty().push(name[0]) + name.skip(1) =~= name);
}

proof fn lemma_run_extends_index(
    chunk: Seq<char>,
    rest: Seq<char>,
    buf: Seq<char>,
    acc: Seq<KeyModel>,
)
    requires
        forall|i: int| 0 <= i < chunk.len() ==> plain_char(#[trigger] chunk[i]),
    ensures
        run(chunk + rest, ParseState::PartialIndex, buf, acc) == run(
            rest,
            ParseState::PartialIndex,
            buf + chunk,
            acc,
        ),
    decreases chunk.len(),
{
    if chunk.len() == 0 {
        assert(chunk + rest =~= rest);
        assert(buf + chunk =~= buf);
    } else {
        let s = chunk + rest;
        assert(s[0] == chunk[0]);
        assert(s.skip(1) =~= chunk.skip(1) + rest);
        lemma_run_extends_index(chunk.skip(1), rest, buf.push(chunk[0]), acc);
        assert(buf.push(chunk[0]) + chunk.skip(1) =~= buf + chunk);
    }
}

proof fn lemma_digit_plain(c: char)
    requires
        is_ascii_digit(c),
    ensures
        plain_char(c),
{
    assert('.' as u32 == 46);
    assert('[' as u32 == 91);
    assert(']' as u32 == 93);
}

/// The decimal form of a number is nonempty, all digits, and reads back as
/// that number.
proof fn lemma_dec_digits(n: nat)
    ensures
        dec_digits(n).len() > 0,
        all_digits(dec_digits(n)),
        digits_val(dec_digits(n)) == n,
    decreases n,
{
    if n < 10 {
        let c = digit_char(n as int);
        assert(c as u32 == n + 48);
        assert(dec_digits(n) == seq![c]);
        assert(dec_digits(n).drop_last() =~= Seq::<char>::empty());
        assert(dec_digits(n).last() == c);
        assert(digits_val(Seq::<char>::empty()) == 0);
        assert(digits_val(dec_digits(n)) == digits_val(Seq::<char>::empty()) * 10 + (c as u32
            - 48));
    } else {
        lemma_dec_digits(n / 10);
        let pre = dec_digits(n / 10);
        let c = digit_char((n % 10) as int);
        assert(c as u32 == n % 10 + 48);
        assert(dec_digits(n) == pre.push(c));
        assert(pre.push(c).drop_last() =~= pre);
        assert(pre.push(c).last() == c);
        assert(all_digits(pre.push(c)));
        vstd::arithmetic::div_mod::lemma_fundamental_div_mod(n as int, 10);
        assert(digits_val(dec_digits(n)) == (n / 10) * 10 + n % 10);
    }
}

/// A pattern whose textual form is unambiguous: every key name is plain and
/// every index fits the machine.
pub open spec fn pattern_plain(steps: Seq<KeyModel>) -> bool {
    forall|i: int|
        0 <= i < steps.len() ==> match #[trigger] steps[i] {
            KeyModel::Table(name) => plain_key(name),
            KeyModel::Array(idx) => 0 <= idx <= usize::MAX as int,
        }
}

/// The steps already read once the scanner leaves state `st`: a key still
/// being read joins them at the next boundary.
spec fn pending_steps(st: ParseState, buf: Seq<char>, acc: Seq<KeyModel>) -> Seq<KeyModel> {
    match st {
        ParseState::PartialKey => acc.push(KeyModel::Table(buf)),
        _ => acc,
    }
}

proof fn lemma_run_steps(steps: Seq<KeyModel>, st: ParseState, buf: Seq<char>, acc: Seq<KeyModel>)
    requires
        pattern_plain(steps),
        st matches (ParseState::Start | ParseState::PartialKey | ParseState::AfterIndex),
        !(st is PartialKey) ==> buf == Seq::<char>::empty(),
        st is Start ==> steps.len() >= 1,
    ensures
        run(render_pattern(steps), st, buf, acc) == Ok::<Seq<KeyModel>, ParseErrorModel>(
            pending_steps(st, buf, acc) + steps,
        ),
    decreases steps.len(),
{
    let r = render_pattern(steps);
    let flushed = pending_steps(st, buf, acc);
    if steps.len() == 0 {
        assert(r.len() == 0);
        assert(flushed + steps =~= flushed);
    } else {
        let tail = render_pattern(steps.skip(1));
        assert(r == render_step(steps[0]) + tail);
        match steps[0] {
            KeyModel::Table(name) => {
                assert(render_step(steps[0]) == seq!['.'] + name);
                assert(r[0] == '.');
                assert(r.len() > 0);
                assert(run(r, st, buf, acc) == run(
                    r.skip(1),
                    ParseState::EmptyKey,
                    Seq::empty(),
                    flushed,
                ));
                assert(r.skip(1) =~= name + tail);
                lemma_run_key(name, tail, flushed);
                lemma_run_steps(steps.skip(1), ParseState::PartialKey, name, flushed);
                assert(flushed.push(KeyModel::Table(name)) + steps.skip(1) =~= flushed + steps);
            },
            KeyModel::Array(idx) => {
                let digits = dec_digits(idx as nat);
                lemma_dec_digits(idx as nat);
                assert(render_step(steps[0]) == seq!['.', '['] + digits + seq![']']);
                assert(r[0] == '.');
                assert(run(r, st, buf, acc) == run(
                    r.skip(1),
                    ParseState::EmptyKey,
                    Seq::empty(),
                    flushed,
                ));
                assert(r.skip(1)[0] == '[');
                assert(run(r.skip(1), ParseState::EmptyKey, Seq::empty(), flushed) == run(
                    r.skip(1).skip(1),
                    ParseState::EmptyIndex,
                    Seq::empty(),
                    flushed,
                ));
                let after_open = r.skip(1).skip(1);
                assert(after_open =~= digits + (seq![']'] + tail));
                assert(after_open[0] == digits[0]);
                lemma_digit_plain(digits[0]);
                assert(run(after_open, ParseState::EmptyIndex, Seq::empty(), flushed) == run(
                    after_open.skip(1),
                    ParseState::PartialIndex,
                    Seq::<char>::empty().push(digits[0]),
                    flushed,
                ));
                assert(after_open.skip(1) =~= digits.skip(1) + (seq![']'] + tail));
                assert(forall|i: int|
                    0 <= i < digits.skip(1).len() ==> plain_char(#[trigger] digits.skip(1)[i])) by {
                    assert forall|i: int| 0 <= i < digits.skip(1).len() implies plain_char(
                        #[trigger] digits.skip(1)[i],
                    ) by {
                        assert(digits.skip(1)[i] == digits[i + 1]);
                        lemma_digit_plain(digits[i + 1]);
                    }
                }
                lemma_run_extends_index(
                    digits.skip(1),
                    seq![']'] + tail,
                    Seq::<char>::empty().push(digits[0]),
                    flushed,
                );
                assert(Seq::<char>::empty().push(digits[0]) + digits.skip(1) =~= digits);
                let at_close = seq![']'] + tail;
                assert(at_close[0] == ']');
                assert(index_valid(digits));
                assert(at_close.skip(1) =~= tail);
                assert(run(at_close, ParseState::PartialIndex, digits, flushed) == run(
                    tail,
                    ParseState::AfterIndex,
                    Seq::empty(),
                    flushed.push(KeyModel::Array(digits_val(digits))),
                ));
                assert(KeyModel::Array(digits_val(digits)) == steps[0]);
                lemma_run_steps(
                    steps.skip(1),
                    ParseState::AfterIndex,
                    Seq::empty(),
                    flushed.push(steps[0]),
                );
                assert(flushed.push(steps[0]) + steps.skip(1) =~= flushed + steps);
            },
        }
    }
}

/// Every rendered step is at least two characters long and starts with a dot.
proof fn lemma_render_step_shape(k: KeyModel)
    requires
        pattern_plain(seq![k]),
    ensures
        render_step(k).len() >= 2,
        render_step(k)[0] == '.',
{
    assert(seq![k][0] == k);
    match k {
        KeyModel::Table(name) => {},
        KeyModel::Array(idx) => {
            lemma_dec_digits(idx as nat);
        },
    }
}

/// Round trip: the textual form of any pattern with one or more steps, plain
/// key names, and machine-sized indices parses back to exactly that pattern.
pub proof fn lemma_text_round_trip(steps: Seq<KeyModel>)
    requires
        steps.len() >= 1,
        pattern_plain(steps),
    ensures
        parse_model(render_pattern(steps)) == Ok::<Seq<KeyModel>, ParseErrorModel>(steps),
{
    let r = render_pattern(steps);
    assert(r == render_step(steps[0]) + render_pattern(steps.skip(1)));
    assert(pattern_plain(seq![steps[0]])) by {
        assert(seq![steps[0]][0] == steps[0]);
    }
    lemma_render_step_shape(steps[0]);
    assert(r.len() >= 2);
    lemma_run_steps(steps, ParseState::Start, Seq::empty(), Seq::empty());
    assert(pending_steps(ParseState::Start, Seq::empty(), Seq::empty()) + steps =~= steps);
}

/// Round trip of dotted paths: a path written `.k1.k2...kn`, with one or more
/// key names that are nonempty and free of the scanner's steering characters,
/// parses back to exactly those table-key steps, in order.
pub proof fn lemma_parse_round_trip(names: Seq<Seq<char>>)
    requires
        names.len() >= 1,
        forall|i: int| 0 <= i < names.len() ==> plain_key(#[trigger] names[i]),
    ensures
        parse_model(render_pattern(table_steps(names))) == Ok::<
            Seq<KeyModel>,
            ParseErrorModel,
        >(table_steps(names)),
{
    let steps = table_steps(names);
    assert(steps.len() == names.len());
    assert(pattern_plain(steps)) by {
        assert(forall|i: int| 0 <= i < steps.len() ==> #[trigger] steps[i] == KeyModel::Table(
            names[i],
        ));
    }
    lemma_text_round_trip(steps);
}

} // verus!
