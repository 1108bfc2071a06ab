//! What is shown to the user and read back: the text form of a listing,
//! the lines that announce a plan, the answer to the question whether to
//! go on, and the choice of an editor.
//!
//! A listing is written one entry per line: the identifier, padded with
//! blanks to the width of the widest identifier, one blank, and the path.
//! An entry without an identifier is written as its path alone.

use vstd::prelude::*;
use vstd::string::StringExecFns;
use crate::decimal::{decimal, push_decimal};
use crate::entry::{listing, Entry, Item};
use crate::error::TreeEditError;
use crate::fsutils::fsop::{plan_of, FsOp, Op};
use crate::text::{chars_of, text_of};

verus! {

/// Ten to the power `e`.
pub open spec fn pow10(e: nat) -> nat
    decreases e,
{
    if e == 0 {
        1
    } else {
        10 * pow10((e - 1) as nat)
    }
}

/// A number below ten to the power `e` has at most `e` digits.
pub proof fn lemma_decimal_len_bound(n: nat, e: nat)
    requires
        e >= 1,
        n < pow10(e),
    ensures
        decimal(n).len() <= e,
    decreases n,
{
    if n >= 10 {
        assert(pow10(1) == 10) by {
            reveal_with_fuel(pow10, 2);
        }
        lemma_decimal_len_bound(n / 10, (e - 1) as nat);
    }
}

/// The number of digits in the decimal notation of `val`.
pub fn digit_count(val: u64) -> (count: u32)
    ensures
        count == decimal(val as nat).len(),
{
    proof {
        assert(pow10(20) == 100000000000000000000) by {
            reveal_with_fuel(pow10, 21);
        }
        lemma_decimal_len_bound(val as nat, 20);
    }
    let mut count: u32 = 1;
    let mut rest = val;
    while rest >= 10
        invariant
            decimal(val as nat).len() <= 20,
            decimal(val as nat).len() == decimal(rest as nat).len() + count - 1,
        decreases rest,
    {
        rest = rest / 10;
        count = count + 1;
    }
    count
}

/// The larger of two identifiers, where both are there; else the one that
/// is.
pub open spec fn larger(a: Option<u64>, b: Option<u64>) -> Option<u64> {
    match (a, b) {
        (Some(x), Some(y)) => Some(if x >= y {
            x
        } else {
            y
        }),
        (Some(_), None) => a,
        (None, _) => b,
    }
}

/// The largest identifier of a listing, if it has any.
pub open spec fn max_id(l: Seq<Item>) -> Option<u64>
    decreases l.len(),
{
    if l.len() == 0 {
        None
    } else {
        larger(max_id(l.drop_last()), l.last().id)
    }
}

/// The width of the identifier column: the number of digits of the
/// largest identifier.
pub open spec fn id_width(l: Seq<Item>) -> nat {
    match max_id(l) {
        Some(id) => decimal(id as nat).len(),
        None => 0,
    }
}

/// `n` blanks.
pub open spec fn blanks(n: nat) -> Seq<char> {
    Seq::new(n, |i: int| ' ')
}

/// `text`, followed by the blanks that fill it up to `width`.
pub open spec fn padded(text: Seq<char>, width: nat) -> Seq<char> {
    if text.len() < width {
        text + blanks((width - text.len()) as nat)
    } else {
        text
    }
}

/// The line for one entry.
pub open spec fn line_of(item: Item, width: nat) -> Seq<char> {
    match item.id {
        Some(id) => padded(decimal(id as nat), width) + seq![' '] + item.path,
        None => item.path,
    }
}

/// The lines for the entries of `l`, with a line break between every two.
pub open spec fn render(l: Seq<Item>, width: nat) -> Seq<char>
    decreases l.len(),
{
    if l.len() == 0 {
        Seq::empty()
    } else if l.len() == 1 {
        line_of(l[0], width)
    } else {
        render(l.drop_last(), width) + seq!['\n'] + line_of(l.last(), width)
    }
}

/// The text of a listing: one line for each entry, in order.
pub fn entries_to_str(entries: &Vec<Entry>) -> (text: String)
    ensures
        text@ == render(listing(entries@), id_width(listing(entries@))),
{
    let ghost l = listing(entries@);
    let mut max: Option<u64> = None;
    let mut i: usize = 0;
    while i < entries.len()
        invariant
            i <= entries.len(),
            l == listing(entries@),
            max == max_id(l.take(i as int)),
        decreases entries.len() - i,
    {
        proof {
            assert(l.take(i + 1).drop_last() =~= l.take(i as int));
        }
        if let Some(id) = entries[i].id {
            max = match max {
                Some(other) => Some(if other >= id {
                    other
                } else {
                    id
                }),
                None => Some(id),
            };
        }
        i += 1;
    }
    proof {
        assert(l.take(l.len() as int) =~= l);
    }
    let width: usize = match max {
        Some(id) => digit_count(id) as usize,
        None => 0,
    };
    let mut text = String::new();
    let mut i: usize = 0;
    while i < entries.len()
        invariant
            i <= entries.len(),
            l == listing(entries@),
            width == id_width(l),
            text@ == render(l.take(i as int), width as nat),
        decreases entries.len() - i,
    {
        let ghost head = l.take(i + 1);
        proof {
            assert(head.drop_last() =~= l.take(i as int));
        }
        if i > 0 {
            text.push('\n');
        }
        let ghost start = text@;
        let entry = &entries[i];
        match entry.id {
            Some(id) => {
                push_decimal(&mut text, id);
                let mut used: usize = digit_count(id) as usize;
                let ghost number = decimal(id as nat);
                while used < width
                    invariant
                        number.len() <= used,
                        used <= width || number.len() == used,
                        text@ == start + number + blanks((used - number.len()) as nat),
                    decreases width - used,
                {
                    text.push(' ');
                    used += 1;
                }
                text.push(' ');
                text.append(entry.path.as_str());
            },
            None => {
                text.append(entry.path.as_str());
            },
        }
        i += 1;
    }
    text
}

/// Whether `c` is white space, as Unicode defines it.
pub open spec fn is_space(c: char) -> bool {
    let n = c as u32;
    ||| 0x09 <= n <= 0x0d
    ||| n == 0x20
    ||| n == 0x85
    ||| n == 0xa0
    ||| n == 0x1680
    ||| 0x2000 <= n <= 0x200a
    ||| n == 0x2028
    ||| n == 0x2029
    ||| n == 0x202f
    ||| n == 0x205f
    ||| n == 0x3000
}

/// `text` without the white space at its start.
pub open spec fn trim_start(text: Seq<char>) -> Seq<char>
    decreases text.len(),
{
    if text.len() > 0 && is_space(text.first()) {
        trim_start(text.drop_first())
    } else {
        text
    }
}

/// `text` without the white space at its end.
pub open spec fn trim_end(text: Seq<char>) -> Seq<char>
    decreases text.len(),
{
    if text.len() > 0 && is_space(text.last()) {
        trim_end(text.drop_last())
    } else {
        text
    }
}

/// `text` without the white space at its start and at its end.
pub open spec fn trim(text: Seq<char>) -> Seq<char> {
    trim_end(trim_start(text))
}

/// The length of the first token of `text`: the characters before its
/// first white space.
pub open spec fn token_len(text: Seq<char>) -> nat
    decreases text.len(),
{
    if text.len() > 0 && !is_space(text.first()) {
        1 + token_len(text.drop_first())
    } else {
        0
    }
}

/// The length of the first line of `text`: the characters before its
/// first line break.
pub open spec fn line_len(text: Seq<char>) -> nat
    decreases text.len(),
{
    if text.len() > 0 && text.first() != '\n' {
        1 + line_len(text.drop_first())
    } else {
        0
    }
}

/// Whether `c` is one of the digits `0` to `9`.
pub open spec fn is_digit(c: char) -> bool {
    '0' <= c <= '9'
}

/// The number that the digits `text` denote.
pub open spec fn digits_value(text: Seq<char>) -> nat
    decreases text.len(),
{
    if text.len() == 0 {
        0
    } else {
        10 * digits_value(text.drop_last()) + (text.last() as u32 - 0x30) as nat
    }
}

/// Whether every character of `text` is a digit.
pub open spec fn all_digits(text: Seq<char>) -> bool {
    forall|i: int| 0 <= i < text.len() ==> is_digit(#[trigger] text[i])
}

/// The number that the digits `digits` denote, where there is at least
/// one, all are digits, and the number fits 64 bits.
pub open spec fn parse_digits(digits: Seq<char>) -> Option<u64> {
    if digits.len() > 0 && all_digits(digits) && digits_value(digits) <= u64::MAX {
        Some(digits_value(digits) as u64)
    } else {
        None
    }
}

/// The number that `token` denotes: an optional plus sign, and digits as
/// for `parse_digits`.
pub open spec fn parse_id(token: Seq<char>) -> Option<u64> {
    if token.len() > 0 && token[0] == '+' {
        parse_digits(token.drop_first())
    } else {
        parse_digits(token)
    }
}

/// The entry that a line stands for; a blank line stands for none. Where
/// the first token of the line is a number, it is the identifier, and the
/// path is what follows the token and the one character after it;
/// otherwise the whole line is the path. Line and path are trimmed.
pub open spec fn parse_line(line: Seq<char>) -> Option<Item> {
    let text = trim(line);
    if text.len() == 0 {
        None
    } else {
        let n = token_len(text) as int;
        match parse_id(text.take(n)) {
            Some(id) => Some(
                Item {
                    id: Some(id),
                    path: trim(
                        if n < text.len() {
                            text.skip(n + 1)
                        } else {
                            Seq::empty()
                        },
                    ),
                },
            ),
            None => Some(Item { id: None, path: text }),
        }
    }
}

/// The entries that the lines of `text` stand for, in order.
pub open spec fn parse(text: Seq<char>) -> Seq<Item>
    decreases text.len(),
{
    let n = line_len(text) as int;
    let rest = if n < text.len() {
        parse(text.skip(n + 1))
    } else {
        Seq::empty()
    };
    match parse_line(text.take(n)) {
        Some(item) => seq![item] + rest,
        None => rest,
    }
}

/// Whether `c` is white space.
pub fn is_whitespace(c: char) -> (space: bool)
    ensures
        space == is_space(c),
{
    let n: u32 = c as u32;
    (0x09 <= n && n <= 0x0d) || n == 0x20 || n == 0x85 || n == 0xa0 || n == 0x1680 || (0x2000 <= n
        && n <= 0x200a) || n == 0x2028 || n == 0x2029 || n == 0x202f || n == 0x205f || n == 0x3000
}

/// The bounds of `chars[from..to]` without the white space at its ends.
fn trim_span(chars: &Vec<char>, from: usize, to: usize) -> (span: (usize, usize))
    requires
        from <= to <= chars.len(),
    ensures
        from <= span.0 <= span.1 <= to,
        chars@.subrange(span.0 as int, span.1 as int) == trim(
            chars@.subrange(from as int, to as int),
        ),
{
    let mut a = from;
    while a < to && is_whitespace(chars[a])
        invariant
            from <= a <= to <= chars.len(),
            trim_start(chars@.subrange(from as int, to as int)) == trim_start(
                chars@.subrange(a as int, to as int),
            ),
        decreases to - a,
    {
        assert(chars@.subrange(a as int, to as int).drop_first() =~= chars@.subrange(
            a + 1,
            to as int,
        ));
        a += 1;
    }
    let mut b = to;
    while a < b && is_whitespace(chars[b - 1])
        invariant
            a <= b <= to <= chars.len(),
            trim_end(chars@.subrange(a as int, to as int)) == trim_end(
                chars@.subrange(a as int, b as int),
            ),
        decreases b - a,
    {
        assert(chars@.subrange(a as int, b as int).drop_last() =~= chars@.subrange(
            a as int,
            b - 1,
        ));
        b -= 1;
    }
    (a, b)
}

/// The end of the token that starts at `from` in `chars[from..to]`.
fn token_end(chars: &Vec<char>, from: usize, to: usize) -> (end: usize)
    requires
        from <= to <= chars.len(),
    ensures
        from <= end <= to,
        end - from == token_len(chars@.subrange(from as int, to as int)),
{
    let mut c = from;
    while c < to && !is_whitespace(chars[c])
        invariant
            from <= c <= to <= chars.len(),
            token_len(chars@.subrange(from as int, to as int)) == (c - from) + token_len(
                chars@.subrange(c as int, to as int),
            ),
        decreases to - c,
    {
        assert(chars@.subrange(c as int, to as int).drop_first() =~= chars@.subrange(
            c + 1,
            to as int,
        ));
        c += 1;
    }
    c
}

/// The end of the line that starts at `from`.
fn line_end(chars: &Vec<char>, from: usize) -> (end: usize)
    requires
        from <= chars.len(),
    ensures
        from <= end <= chars.len(),
        end - from == line_len(chars@.skip(from as int)),
{
    let mut e = from;
    while e < chars.len() && chars[e] != '\n'
        invariant
            from <= e <= chars.len(),
            line_len(chars@.skip(from as int)) == (e - from) + line_len(chars@.skip(e as int)),
        decreases chars.len() - e,
    {
        assert(chars@.skip(e as int).drop_first() =~= chars@.skip(e + 1));
        e += 1;
    }
    e
}

/// Appending digits to digits does not make their number smaller.
proof fn lemma_digits_value_grows(text: Seq<char>, n: int)
    requires
        0 <= n <= text.len(),
        all_digits(text),
    ensures
        digits_value(text.take(n)) <= digits_value(text),
    decreases text.len() - n,
{
    if n < text.len() {
        lemma_digits_value_grows(text, n + 1);
        assert(text.take(n + 1).drop_last() =~= text.take(n));
    } else {
        assert(text.take(n) =~= text);
    }
}

/// The number that the token `chars[from..to]` denotes.
fn read_id(chars: &Vec<char>, from: usize, to: usize) -> (id: Option<u64>)
    requires
        from <= to <= chars.len(),
    ensures
        id == parse_id(chars@.subrange(from as int, to as int)),
{
    let ghost token = chars@.subrange(from as int, to as int);
    let start = if from < to && chars[from] == '+' {
        from + 1
    } else {
        from
    };
    let ghost digits = chars@.subrange(start as int, to as int);
    proof {
        if start > from {
            assert(digits =~= token.drop_first());
        }
    }
    if start == to {
        return None;
    }
    let mut value: u64 = 0;
    let mut i = start;
    while i < to
        invariant
            from <= start <= i <= to <= chars.len(),
            start < to,
            digits == chars@.subrange(start as int, to as int),
            parse_id(chars@.subrange(from as int, to as int)) == parse_digits(digits),
            all_digits(digits.take(i - start)),
            value == digits_value(digits.take(i - start)),
        decreases to - i,
    {
        let c = chars[i];
        let ghost head = digits.take(i - start + 1);
        proof {
            assert(head.drop_last() =~= digits.take(i - start));
        }
        if !('0' <= c && c <= '9') {
            assert(!all_digits(digits)) by {
                assert(!is_digit(digits[i - start]));
            }
            return None;
        }
        let d: u64 = (c as u32 - 0x30) as u64;
        if value > (u64::MAX - d) / 10 {
            proof {
                if all_digits(digits) {
                    lemma_digits_value_grows(digits, i - start + 1);
                }
            }
            return None;
        }
        value = value * 10 + d;
        i += 1;
    }
    proof {
        assert(digits.take(i - start) =~= digits);
    }
    Some(value)
}

/// The entry that the line `chars[from..to]` stands for, if any.
fn read_line(chars: &Vec<char>, from: usize, to: usize) -> (entry: Option<Entry>)
    requires
        from <= to <= chars.len(),
    ensures
        match entry {
            Some(entry) => Some(entry@) == parse_line(chars@.subrange(from as int, to as int)),
            None => parse_line(chars@.subrange(from as int, to as int)) is None,
        },
{
    let (a, b) = trim_span(chars, from, to);
    if a == b {
        return None;
    }
    let ghost text = chars@.subrange(a as int, b as int);
    let c = token_end(chars, a, b);
    assert(text.take(c - a) =~= chars@.subrange(a as int, c as int));
    match read_id(chars, a, c) {
        Some(id) => {
            let rest = if c < b {
                c + 1
            } else {
                b
            };
            assert(chars@.subrange(rest as int, b as int) =~= if c - a < text.len() {
                text.skip(c - a + 1)
            } else {
                Seq::empty()
            });
            let (p, q) = trim_span(chars, rest, b);
            Some(Entry { id: Some(id), path: text_of(chars, p, q) })
        },
        None => Some(Entry { id: None, path: text_of(chars, a, b) }),
    }
}

/// The entries that the lines of `s` stand for, in order. Blank lines
/// stand for nothing. A line that starts with a number gives an entry with
/// that identifier; any other line gives an entry without one, whose path
/// is the line.
pub fn str_to_entries(s: &str) -> (entries: Vec<Entry>)
    ensures
        listing(entries@) == parse(s@),
{
    let chars = chars_of(s);
    let mut entries: Vec<Entry> = Vec::new();
    let mut from: usize = 0;
    let mut done = false;
    proof {
        assert(chars@.skip(0) =~= chars@);
    }
    while !done
        invariant
            from <= chars.len(),
            chars@ == s@,
            !done ==> parse(s@) == listing(entries@) + parse(chars@.skip(from as int)),
            done ==> parse(s@) == listing(entries@),
        decreases chars.len() - from + (if done { 0int } else { 1int }),
    {
        let ghost tail = chars@.skip(from as int);
        let end = line_end(&chars, from);
        assert(tail.take(end - from) =~= chars@.subrange(from as int, end as int));
        match read_line(&chars, from, end) {
            Some(entry) => {
                entries.push(entry);
            },
            None => {},
        }
        if end < chars.len() {
            proof {
                assert(tail.skip(end - from + 1) =~= chars@.skip(end + 1));
            }
            from = end + 1;
        } else {
            done = true;
        }
    }
    entries
}

/// The line that announces `op`: its kind in capitals and its paths,
/// coloured green for a creation or a copy, yellow for a move and red for a
/// removal.
pub open spec fn op_line(op: Op) -> Seq<char> {
    match op {
        Op::Create { path } => "\x1b[32mCREATE "@ + path + "\x1b[0m"@,
        Op::Move { src, dst } => "\x1b[33mMOVE   "@ + src + " => "@ + dst + "\x1b[0m"@,
        Op::Copy { src, dst } => "\x1b[32mCOPY   "@ + src + " => "@ + dst + "\x1b[0m"@,
        Op::Remove { path } => "\x1b[31mREMOVE "@ + path + "\x1b[0m"@,
    }
}

/// The lines that announce a plan, each closed by a line break.
pub open spec fn plan_lines(plan: Seq<Op>) -> Seq<char>
    decreases plan.len(),
{
    if plan.len() == 0 {
        Seq::empty()
    } else {
        plan_lines(plan.drop_last()) + op_line(plan.last()) + seq!['\n']
    }
}

/// The text that announces the operations of `ops` to the user, one line
/// for each.
pub fn display_ops(ops: &Vec<FsOp>) -> (text: String)
    ensures
        text@ == plan_lines(plan_of(ops@)),
{
    let ghost plan = plan_of(ops@);
    let mut text = String::new();
    let mut i: usize = 0;
    while i < ops.len()
        invariant
            i <= ops.len(),
            plan == plan_of(ops@),
            text@ == plan_lines(plan.take(i as int)),
        decreases ops.len() - i,
    {
        proof {
            assert(plan.take(i + 1).drop_last() =~= plan.take(i as int));
        }
        match &ops[i] {
            FsOp::CreateFile { path } => {
                text.append("\x1b[32mCREATE ");
                text.append(path.as_str());
            },
            FsOp::MoveFile { src, dst } => {
                text.append("\x1b[33mMOVE   ");
                text.append(src.as_str());
                text.append(" => ");
                text.append(dst.as_str());
            },
            FsOp::CopyFile { src, dst } => {
                text.append("\x1b[32mCOPY   ");
                text.append(src.as_str());
                text.append(" => ");
                text.append(dst.as_str());
            },
            FsOp::RemoveFile { path } => {
                text.append("\x1b[31mREMOVE ");
                text.append(path.as_str());
            },
        }
        text.append("\x1b[0m");
        text.push('\n');
        i += 1;
    }
    proof {
        assert(plan.take(plan.len() as int) =~= plan);
    }
    text
}

/// Whether `c` is the letter `letter`, small or capital; `letter` is a
/// small letter.
pub open spec fn is_letter(c: char, letter: char) -> bool {
    c == letter || c as u32 + 0x20 == letter as u32
}

/// Whether `answer` says yes: trimmed, it is `y` or `yes`, in small or
/// capital letters.
pub open spec fn says_yes(answer: Seq<char>) -> bool {
    let word = trim(answer);
    ||| word.len() == 1 && is_letter(word[0], 'y')
    ||| word.len() == 3 && is_letter(word[0], 'y') && is_letter(word[1], 'e') && is_letter(
        word[2],
        's',
    )
}

fn letter_is(c: char, letter: char) -> (same: bool)
    requires
        'a' <= letter <= 'z',
    ensures
        same == is_letter(c, letter),
{
    c == letter || (c as u32) + 0x20 == letter as u32
}

/// Whether the user, asked whether to go on, agreed with the line
/// `answer`. Anything but a yes is a no.
pub fn user_confirm(answer: &str) -> (agreed: bool)
    ensures
        agreed == says_yes(answer@),
{
    let chars = chars_of(answer);
    let (a, b) = trim_span(&chars, 0, chars.len());
    assert(chars@.subrange(0, chars.len() as int) =~= chars@);
    if b - a == 1 {
        letter_is(chars[a], 'y')
    } else if b - a == 3 {
        letter_is(chars[a], 'y') && letter_is(chars[a + 1], 'e') && letter_is(chars[a + 2], 's')
    } else {
        false
    }
}

/// The editors to try, in order: the user's choices, where made, then
/// four that are widely installed.
pub open spec fn candidates(visual: Option<Seq<char>>, editor: Option<Seq<char>>) -> Seq<
    Seq<char>,
> {
    let chosen = match visual {
        Some(name) => seq![name],
        None => Seq::empty(),
    } + match editor {
        Some(name) => seq![name],
        None => Seq::empty(),
    };
    chosen + seq!["nvim"@, "vim"@, "vi"@, "nano"@]
}

/// The names of `editors`, as sequences of characters.
pub open spec fn names(editors: Seq<String>) -> Seq<Seq<char>> {
    Seq::new(editors.len(), |i: int| editors[i]@)
}

/// The editors to try, in order, given what the user set as the visual
/// editor and as the editor.
pub fn editor_candidates(visual: Option<String>, editor: Option<String>) -> (editors: Vec<String>)
    ensures
        names(editors@) == candidates(
            match visual {
                Some(name) => Some(name@),
                None => None,
            },
            match editor {
                Some(name) => Some(name@),
                None => None,
            },
        ),
{
    let mut editors: Vec<String> = Vec::new();
    if let Some(name) = visual {
        editors.push(name);
    }
    if let Some(name) = editor {
        editors.push(name);
    }
    editors.push(String::from_str("nvim"));
    editors.push(String::from_str("vim"));
    editors.push(String::from_str("vi"));
    editors.push(String::from_str("nano"));
    editors
}

/// How the attempt to start an editor ended.
#[derive(Debug)]
pub enum Launch {
    /// The editor ran and ended, well or not, with this code if it had one.
    Exited { success: bool, code: Option<i32> },
    /// No such program was found.
    NotFound,
    /// Starting or awaiting the program failed.
    Failed(std::io::Error),
}

/// What follows an attempt to start an editor.
#[derive(Debug)]
pub enum EditorStep {
    /// The user has edited the file: read it.
    Edited,
    /// Try the editor with this index.
    Try(usize),
    /// Give up with this error.
    Fail(TreeEditError),
}

/// What follows when editor `tried` of `count` editors was tried and the
/// attempt ended as `launch` says. The first editor that starts decides: its
/// success ends the search, its failure is the failure of the edit. An
/// editor that is not installed hands over to the next; when none is left,
/// no editor is available. Any other trouble is reported as it is.
pub fn open_in_editor(count: usize, tried: usize, launch: Launch) -> (step: EditorStep)
    ensures
        match launch {
            Launch::Exited { success, code } => if success {
                step is Edited
            } else {
                step == EditorStep::Fail(TreeEditError::EditorExitFailure(code))
            },
            Launch::NotFound => if tried + 1 < count {
                step == EditorStep::Try((tried + 1) as usize)
            } else {
                step == EditorStep::Fail(TreeEditError::NoEditorAvailable)
            },
            Launch::Failed(source) => step == EditorStep::Fail(TreeEditError::IOError(source)),
        },
{
    match launch {
        Launch::Exited { success, code } => {
            if success {
                EditorStep::Edited
            } else {
                EditorStep::Fail(TreeEditError::EditorExitFailure(code))
            }
        },
        Launch::NotFound => {
            if tried < count && tried + 1 < count {
                EditorStep::Try(tried + 1)
            } else {
                EditorStep::Fail(TreeEditError::NoEditorAvailable)
            }
        },
        Launch::Failed(source) => EditorStep::Fail(TreeEditError::IOError(source)),
    }
}

} // verus!
