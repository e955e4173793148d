//! The two text formats at the edge of the exchange: the commands of the
//! console, one a line, and the level view as numbers separated by commas.
//! Both are plain ASCII.

use vstd::prelude::*;
use crate::comm::urcp::{
    AddRequest, CancelRequest, FlushRequest, LevelViewRequest, OBRequest, ReduceRequest,
    StartRequest,
};

verus! {

/// Whether a byte separates words: a blank, or one of tab to carriage return.
pub open spec fn is_space(b: u8) -> bool {
    b == 0x20 || 0x09 <= b <= 0x0d
}

/// Whether a byte is a decimal digit.
pub open spec fn is_digit(b: u8) -> bool {
    0x30 <= b <= 0x39
}

/// Whether all bytes are decimal digits.
pub open spec fn all_digits(s: Seq<u8>) -> bool {
    forall|i: int| 0 <= i < s.len() ==> is_digit(#[trigger] s[i])
}

/// The number that decimal digits spell.
pub open spec fn digits_value(s: Seq<u8>) -> nat
    decreases s.len(),
{
    if s.len() == 0 {
        0
    } else {
        digits_value(s.drop_last()) * 10 + (s.last() - 0x30) as nat
    }
}

/// The number that a word spells without a sign or behind a plus sign, if
/// it spells one: at least one digit, and digits only.
pub open spec fn unsigned_of(word: Seq<u8>) -> Option<nat> {
    let body = if word.len() > 0 && word[0] == 0x2b {
        word.skip(1)
    } else {
        word
    };
    if body.len() > 0 && all_digits(body) {
        Some(digits_value(body))
    } else {
        None
    }
}

/// The number that a word spells, if it spells one: as `unsigned_of`, or
/// the negative of the digits behind a minus sign.
pub open spec fn signed_of(word: Seq<u8>) -> Option<int> {
    if word.len() > 0 && word[0] == 0x2d {
        if word.len() > 1 && all_digits(word.skip(1)) {
            Some(-(digits_value(word.skip(1)) as int))
        } else {
            None
        }
    } else {
        match unsigned_of(word) {
            Some(v) => Some(v as int),
            None => None,
        }
    }
}

/// Where the next word starts at or behind `from`; the length of the line
/// where there is none.
pub open spec fn word_start(line: Seq<u8>, from: int) -> int
    decreases line.len() - from,
{
    if from < 0 || from >= line.len() || !is_space(line[from]) {
        from
    } else {
        word_start(line, from + 1)
    }
}

/// Where the word that starts at `from` ends.
pub open spec fn word_end(line: Seq<u8>, from: int) -> int
    decreases line.len() - from,
{
    if from < 0 || from >= line.len() || is_space(line[from]) {
        from
    } else {
        word_end(line, from + 1)
    }
}

/// The next `n` words behind `from`, if the line has that many.
pub open spec fn words(line: Seq<u8>, from: int, n: nat) -> Option<Seq<Seq<u8>>>
    decreases n,
{
    if n == 0 {
        Some(Seq::empty())
    } else {
        let a = word_start(line, from);
        let b = word_end(line, a);
        if a < 0 || a >= line.len() {
            None
        } else {
            match words(line, b, (n - 1) as nat) {
                None => None,
                Some(more) => Some(seq![line.subrange(a, b)] + more),
            }
        }
    }
}

/// What a line of the console asks for.
#[derive(Clone, Copy, Debug, PartialEq, Eq)]
pub enum Command {
    /// Send the request to the engine.
    Send(OBRequest),
    /// End the session.
    Quit,
}

/// Why a line of the console is no command.
#[derive(Clone, Copy, Debug, PartialEq, Eq)]
pub enum CommandError {
    /// The line holds no word.
    Empty,
    /// The command wants more numbers than the line holds.
    MissingArgument,
    /// A word is no number, or none that its field can hold.
    BadNumber,
}

/// The number of numbers that the command with the letter `letter` wants.
pub open spec fn arity(letter: u8) -> nat {
    if letter == 0x41 || letter == 0x52 {
        3
    } else if letter == 0x43 {
        2
    } else {
        1
    }
}

/// Whether a letter names a request.
pub open spec fn names_request(letter: u8) -> bool {
    letter == 0x41 || letter == 0x43 || letter == 0x52 || letter == 0x46 || letter == 0x53 || letter == 0x56
}

/// The number that a word spells, if it fits between nothing and `max`.
pub open spec fn field(word: Seq<u8>, max: int) -> Option<int> {
    match unsigned_of(word) {
        Some(v) => if v <= max {
            Some(v as int)
        } else {
            None
        },
        None => None,
    }
}

/// The price that a word spells, if it is one.
pub open spec fn price_field(word: Seq<u8>) -> Option<int> {
    match signed_of(word) {
        Some(v) => if -128 <= v <= 127 {
            Some(v)
        } else {
            None
        },
        None => None,
    }
}

/// The request that a letter and its numbers spell.
pub open spec fn request_of(letter: u8, args: Seq<Seq<u8>>) -> Result<Command, CommandError> {
    if letter == 0x41 {
        match (field(args[0], u64::MAX as int), price_field(args[1]), field(args[2], u16::MAX as int)) {
            (Some(qty), Some(price), Some(book)) => Ok(
                Command::Send(
                    OBRequest::Add(AddRequest { qty: qty as u64, price: price as i8, ob_id: book as u16 }),
                ),
            ),
            _ => Err(CommandError::BadNumber),
        }
    } else if letter == 0x43 {
        match (field(args[0], usize::MAX as int), field(args[1], u16::MAX as int)) {
            (Some(oid), Some(book)) => Ok(
                Command::Send(OBRequest::Cancel(CancelRequest { oid: oid as usize, ob_id: book as u16 })),
            ),
            _ => Err(CommandError::BadNumber),
        }
    } else if letter == 0x52 {
        match (field(args[0], usize::MAX as int), field(args[1], u64::MAX as int), field(args[2], u16::MAX as int)) {
            (Some(oid), Some(qty), Some(book)) => Ok(
                Command::Send(
                    OBRequest::Reduce(ReduceRequest { oid: oid as usize, qty: qty as u64, ob_id: book as u16 }),
                ),
            ),
            _ => Err(CommandError::BadNumber),
        }
    } else {
        match field(args[0], u16::MAX as int) {
            Some(book) => Ok(
                Command::Send(
                    if letter == 0x46 {
                        OBRequest::Flush(FlushRequest { ob_id: book as u16 })
                    } else if letter == 0x53 {
                        OBRequest::Start(StartRequest { ob_id: book as u16 })
                    } else {
                        OBRequest::LevelView(LevelViewRequest { ob_id: book as u16 })
                    },
                ),
            ),
            None => Err(CommandError::BadNumber),
        }
    }
}

/// What a line of the console asks for. The first letter of the first word
/// names the command: `A` adds (quantity, price, book), `C` cancels (order,
/// book), `R` reduces (order, quantity, book), `F` flushes, `S` starts and
/// `V` asks for the level view (book); any other letter ends the session.
/// The numbers follow as words of their own; words beyond them are not read.
pub open spec fn command_of(line: Seq<u8>) -> Result<Command, CommandError> {
    let a = word_start(line, 0);
    if a >= line.len() {
        Err(CommandError::Empty)
    } else if !names_request(line[a]) {
        Ok(Command::Quit)
    } else {
        match words(line, word_end(line, a), arity(line[a])) {
            None => Err(CommandError::MissingArgument),
            Some(args) => request_of(line[a], args),
        }
    }
}

/// The words that were asked for are as many as were asked for.
pub proof fn lemma_words_len(line: Seq<u8>, from: int, n: nat)
    ensures
        words(line, from, n) matches Some(w) ==> w.len() == n,
    decreases n,
{
    if n > 0 {
        lemma_words_len(line, word_end(line, word_start(line, from)), (n - 1) as nat);
    }
}

/// Appending a digit to digits.
pub proof fn lemma_digits_push(s: Seq<u8>, d: u8)
    ensures
        digits_value(s.push(d)) == digits_value(s) * 10 + (d - 0x30) as nat,
{
    assert(s.push(d).drop_last() =~= s);
}

/// More digits spell no smaller number.
pub proof fn lemma_digits_grow(s: Seq<u8>, n: int)
    requires
        0 <= n <= s.len(),
        all_digits(s),
    ensures
        digits_value(s.take(n)) <= digits_value(s),
    decreases s.len() - n,
{
    if n == s.len() {
        assert(s.take(n) =~= s);
    } else {
        lemma_digits_grow(s, n + 1);
        assert(s.take(n + 1).drop_last() =~= s.take(n));
        assert(is_digit(s[n]));
    }
}

fn space(b: u8) -> (r: bool)
    ensures
        r == is_space(b),
{
    b == 0x20 || (0x09 <= b && b <= 0x0d)
}

/// Finds the start of the next word.
fn skip_spaces(line: &[u8], from: usize) -> (at: usize)
    requires
        from <= line@.len(),
    ensures
        at == word_start(line@, from as int),
        from <= at <= line@.len(),
{
    let mut i = from;
    while i < line.len() && space(line[i])
        invariant
            from <= i <= line@.len(),
            word_start(line@, from as int) == word_start(line@, i as int),
        decreases line@.len() - i,
    {
        i = i + 1;
    }
    i
}

/// Finds the end of the word that starts at `from`.
fn skip_word(line: &[u8], from: usize) -> (at: usize)
    requires
        from <= line@.len(),
    ensures
        at == word_end(line@, from as int),
        from <= at <= line@.len(),
{
    let mut i = from;
    while i < line.len() && !space(line[i])
        invariant
            from <= i <= line@.len(),
            word_end(line@, from as int) == word_end(line@, i as int),
        decreases line@.len() - i,
    {
        i = i + 1;
    }
    i
}

/// Reads the digits between `a` and `b` as a number of at most `max`.
fn read_digits(line: &[u8], a: usize, b: usize, max: u64) -> (r: Option<u64>)
    requires
        a <= b <= line@.len(),
    ensures
        r == (if a < b && all_digits(line@.subrange(a as int, b as int)) && digits_value(
            line@.subrange(a as int, b as int),
        ) <= max {
            Some(digits_value(line@.subrange(a as int, b as int)) as u64)
        } else {
            None
        }),
{
    if a == b {
        return None;
    }
    let ghost body = line@.subrange(a as int, b as int);
    let mut acc: u64 = 0;
    let mut i = a;
    assert(body.take(0) =~= Seq::<u8>::empty());
    while i < b
        invariant
            a <= i <= b <= line@.len(),
            body == line@.subrange(a as int, b as int),
            all_digits(body.take(i - a)),
            acc == digits_value(body.take(i - a)),
            acc <= max,
        decreases b - i,
    {
        let c = line[i];
        if c < 0x30 || c > 0x39 {
            assert(body[i - a] == c);
            return None;
        }
        let d: u64 = (c - 0x30) as u64;
        proof {
            assert(body.take(i - a + 1) =~= body.take(i - a).push(c));
            lemma_digits_push(body.take(i - a), c);
            assert forall|k: int| 0 <= k < i - a + 1 implies is_digit(#[trigger] body.take(i - a + 1)[k]) by {
                if k < i - a {
                    assert(is_digit(body.take(i - a)[k]));
                }
            }
        }
        if d > max || acc > (max - d) / 10 {
            proof {
                // the digits read so far already pass `max`
                if all_digits(body) {
                    lemma_digits_grow(body, i - a + 1);
                }
            }
            return None;
        }
        acc = acc * 10 + d;
        i = i + 1;
    }
    assert(body.take(b - a) =~= body);
    Some(acc)
}

/// Reads a word as a number without a sign or behind a plus sign.
fn read_unsigned(line: &[u8], a: usize, b: usize, max: u64) -> (r: Option<u64>)
    requires
        a <= b <= line@.len(),
    ensures
        r is Some <==> field(line@.subrange(a as int, b as int), max as int) is Some,
        r matches Some(v) ==> field(line@.subrange(a as int, b as int), max as int) == Some(v as int),
{
    let ghost word = line@.subrange(a as int, b as int);
    if a < b && line[a] == 0x2b {
        assert(word[0] == 0x2b);
        assert(word.skip(1) =~= line@.subrange(a + 1, b as int));
        read_digits(line, a + 1, b, max)
    } else {
        proof {
            if a < b {
                assert(word[0] == line@[a as int]);
            }
        }
        read_digits(line, a, b, max)
    }
}

/// Reads a word as a price.
fn read_price(line: &[u8], a: usize, b: usize) -> (r: Option<i8>)
    requires
        a <= b <= line@.len(),
    ensures
        r is Some <==> price_field(line@.subrange(a as int, b as int)) is Some,
        r matches Some(v) ==> price_field(line@.subrange(a as int, b as int)) == Some(v as int),
{
    let ghost word = line@.subrange(a as int, b as int);
    if a < b && line[a] == 0x2d {
        assert(word[0] == 0x2d);
        assert(word.skip(1) =~= line@.subrange(a + 1, b as int));
        match read_digits(line, a + 1, b, 128) {
            Some(v) => Some((-(v as i16)) as i8),
            None => None,
        }
    } else {
        proof {
            if a < b {
                assert(word[0] == line@[a as int]);
            }
        }
        match read_unsigned(line, a, b, 127) {
            Some(v) => Some(v as i8),
            None => None,
        }
    }
}

/// Finds the next `n` words behind `from`: the places where each starts and ends.
fn find_words(line: &[u8], from: usize, n: usize) -> (r: Option<Vec<(usize, usize)>>)
    requires
        from <= line@.len(),
        n <= 3,
    ensures
        r is Some <==> words(line@, from as int, n as nat) is Some,
        r matches Some(places) ==> {
            &&& places@.len() == n
            &&& forall|k: int| 0 <= k < n ==> {
                &&& (#[trigger] places@[k]).0 <= places@[k].1 <= line@.len()
                &&& words(line@, from as int, n as nat)->0[k] == line@.subrange(
                    places@[k].0 as int,
                    places@[k].1 as int,
                )
            }
        },
    decreases n,
{
    if n == 0 {
        return Some(Vec::new());
    }
    let a = skip_spaces(line, from);
    if a >= line.len() {
        return None;
    }
    let b = skip_word(line, a);
    match find_words(line, b, n - 1) {
        None => None,
        Some(more) => {
            let mut places: Vec<(usize, usize)> = Vec::new();
            places.push((a, b));
            let mut k: usize = 0;
            while k < more.len()
                invariant
                    k <= more@.len(),
                    places@.len() == k + 1,
                    places@[0] == (a, b),
                    forall|j: int| 0 <= j < k ==> places@[j + 1] == more@[j],
                decreases more@.len() - k,
            {
                places.push(more[k]);
                k = k + 1;
            }
            proof {
                let rest_of = words(line@, b as int, (n - 1) as nat)->0;
                let all = words(line@, from as int, n as nat)->0;
                lemma_words_len(line@, b as int, (n - 1) as nat);
                lemma_words_len(line@, from as int, n as nat);
                assert(all =~= seq![line@.subrange(a as int, b as int)] + rest_of);
                assert forall|j: int| 0 <= j < n implies {
                    &&& (#[trigger] places@[j]).0 <= places@[j].1 <= line@.len()
                    &&& all[j] == line@.subrange(places@[j].0 as int, places@[j].1 as int)
                } by {
                    if j > 0 {
                        assert(places@[j] == more@[j - 1]);
                        assert(all[j] == rest_of[j - 1]);
                    }
                }
            }
            Some(places)
        },
    }
}

/// Reads a line of the console; see `command_of`.
pub fn parse_command(line: &[u8]) -> (r: Result<Command, CommandError>)
    ensures
        r == command_of(line@),
{
    let a = skip_spaces(line, 0);
    if a >= line.len() {
        return Err(CommandError::Empty);
    }
    let letter = line[a];
    if !(letter == 0x41 || letter == 0x43 || letter == 0x52 || letter == 0x46 || letter == 0x53 || letter
        == 0x56) {
        return Ok(Command::Quit);
    }
    let b = skip_word(line, a);
    let n: usize = if letter == 0x41 || letter == 0x52 {
        3
    } else if letter == 0x43 {
        2
    } else {
        1
    };
    let places = match find_words(line, b, n) {
        None => {
            return Err(CommandError::MissingArgument);
        },
        Some(places) => places,
    };
    let ghost args = words(line@, b as int, n as nat)->0;
    if letter == 0x41 {
        let qty = read_unsigned(line, places[0].0, places[0].1, u64::MAX);
        let price = read_price(line, places[1].0, places[1].1);
        let book = read_unsigned(line, places[2].0, places[2].1, 0xffff);
        match (qty, price, book) {
            (Some(qty), Some(price), Some(book)) => Ok(
                Command::Send(OBRequest::Add(AddRequest::new(qty, price, book as u16))),
            ),
            _ => Err(CommandError::BadNumber),
        }
    } else if letter == 0x43 {
        let oid = read_unsigned(line, places[0].0, places[0].1, usize::MAX as u64);
        let book = read_unsigned(line, places[1].0, places[1].1, 0xffff);
        match (oid, book) {
            (Some(oid), Some(book)) => Ok(
                Command::Send(OBRequest::Cancel(CancelRequest::new(oid as usize, book as u16))),
            ),
            _ => Err(CommandError::BadNumber),
        }
    } else if letter == 0x52 {
        let oid = read_unsigned(line, places[0].0, places[0].1, usize::MAX as u64);
        let qty = read_unsigned(line, places[1].0, places[1].1, u64::MAX);
        let book = read_unsigned(line, places[2].0, places[2].1, 0xffff);
        match (oid, qty, book) {
            (Some(oid), Some(qty), Some(book)) => Ok(
                Command::Send(OBRequest::Reduce(ReduceRequest::new(oid as usize, qty, book as u16))),
            ),
            _ => Err(CommandError::BadNumber),
        }
    } else {
        match read_unsigned(line, places[0].0, places[0].1, 0xffff) {
            Some(book) => Ok(
                Command::Send(
                    if letter == 0x46 {
                        OBRequest::Flush(FlushRequest::new(book as u16))
                    } else if letter == 0x53 {
                        OBRequest::Start(StartRequest::new(book as u16))
                    } else {
                        OBRequest::LevelView(LevelViewRequest::new(book as u16))
                    },
                ),
            ),
            None => Err(CommandError::BadNumber),
        }
    }
}

/// The decimal digits of a number, without leading zeros.
pub open spec fn decimal(n: nat) -> Seq<u8>
    decreases n,
{
    if n < 10 {
        seq![(0x30 + n) as u8]
    } else {
        decimal(n / 10).push((0x30 + n % 10) as u8)
    }
}

/// Numbers in decimal digits, separated by commas.
pub open spec fn joined(values: Seq<u64>) -> Seq<u8>
    decreases values.len(),
{
    if values.len() == 0 {
        Seq::empty()
    } else if values.len() == 1 {
        decimal(values[0] as nat)
    } else {
        joined(values.drop_last()).push(0x2c) + decimal(values.last() as nat)
    }
}

/// Round trip: the decimal digits of a number spell that number.
pub proof fn lemma_decimal_reads_back(n: nat)
    ensures
        decimal(n).len() > 0,
        all_digits(decimal(n)),
        digits_value(decimal(n)) == n,
        unsigned_of(decimal(n)) == Some(n),
    decreases n,
{
    if n < 10 {
        let s = decimal(n);
        assert(s.drop_last() =~= Seq::<u8>::empty());
        assert(digits_value(s.drop_last()) == 0);
    } else {
        lemma_decimal_reads_back(n / 10);
        let d = (0x30 + n % 10) as u8;
        lemma_digits_push(decimal(n / 10), d);
        assert forall|i: int| 0 <= i < decimal(n).len() implies is_digit(#[trigger] decimal(n)[i]) by {
            if i < decimal(n / 10).len() {
                assert(is_digit(decimal(n / 10)[i]));
            }
        }
    }
    assert(decimal(n)[0] != 0x2b);
}

/// Appends the decimal digits of `value`.
pub fn put_decimal(out: &mut Vec<u8>, value: u64)
    ensures
        final(out)@ == old(out)@ + decimal(value as nat),
{
    // the digits behind the first, last digit first
    let mut low: Vec<u8> = Vec::new();
    let mut rest: u64 = value;
    assert(decimal(value as nat) =~= decimal(rest as nat) + low@.reverse());
    while rest >= 10
        invariant
            decimal(value as nat) == decimal(rest as nat) + low@.reverse(),
        decreases rest,
    {
        let d: u8 = (0x30 + rest % 10) as u8;
        proof {
            let shorter = decimal((rest / 10) as nat);
            assert(low@.push(d).reverse() =~= seq![d] + low@.reverse());
            assert(shorter.push(d) + low@.reverse() =~= shorter + (seq![d] + low@.reverse()));
        }
        low.push(d);
        rest = rest / 10;
    }
    out.push((0x30 + rest) as u8);
    let mut k: usize = low.len();
    while k > 0
        invariant
            k <= low@.len(),
            rest < 10,
            decimal(value as nat) == decimal(rest as nat) + low@.reverse(),
            out@ == old(out)@ + decimal(rest as nat) + low@.reverse().take(low@.len() - k),
        decreases k,
    {
        k = k - 1;
        out.push(low[k]);
        proof {
            let r = low@.reverse();
            assert(r[low@.len() - 1 - k] == low@[k as int]);
            assert(r.take(low@.len() - k) =~= r.take(low@.len() - k - 1).push(low@[k as int]));
        }
    }
    proof {
        assert(low@.reverse().take(low@.len() as int) =~= low@.reverse());
        assert(out@ =~= old(out)@ + decimal(value as nat));
    }
}

/// The level view as text: the quantities in decimal digits, separated by
/// commas.
pub fn render_view(prices: &[u64; 256]) -> (out: Vec<u8>)
    ensures
        out@ == joined(prices@),
{
    let mut out: Vec<u8> = Vec::new();
    put_decimal(&mut out, prices[0]);
    assert(prices@.take(1) =~= seq![prices@[0]]);
    assert(out@ =~= joined(prices@.take(1)));
    let mut i: usize = 1;
    while i < 256
        invariant
            1 <= i <= 256,
            prices@.len() == 256,
            out@ == joined(prices@.take(i as int)),
        decreases 256 - i,
    {
        out.push(0x2c);
        put_decimal(&mut out, prices[i]);
        proof {
            assert(prices@.take(i + 1).drop_last() =~= prices@.take(i as int));
            assert(prices@.take(i + 1).last() == prices@[i as int]);
        }
        i = i + 1;
    }
    assert(prices@.take(256) =~= prices@);
    out
}

/// Where the next blank stands at or behind `from`; the length of the text
/// where there is none.
pub open spec fn blank_from(text: Seq<u8>, from: int) -> int
    decreases text.len() - from,
{
    if from < 0 || from >= text.len() || text[from] == 0x20 {
        from
    } else {
        blank_from(text, from + 1)
    }
}

/// The book that a message asks the level view of, if it asks for one: the
/// letter `V`, one blank, and the book's number up to the next blank or
/// the end.
pub open spec fn view_request_of(text: Seq<u8>) -> Option<u16> {
    let a = blank_from(text, 0);
    if a == 1 && text[0] == 0x56 && a < text.len() {
        match field(text.subrange(a + 1, blank_from(text, a + 1)), u16::MAX as int) {
            Some(book) => Some(book as u16),
            None => None,
        }
    } else {
        None
    }
}

/// Finds the next blank.
fn find_blank(text: &[u8], from: usize) -> (at: usize)
    requires
        from <= text@.len(),
    ensures
        at == blank_from(text@, from as int),
        from <= at <= text@.len(),
{
    let mut i = from;
    while i < text.len() && text[i] != 0x20
        invariant
            from <= i <= text@.len(),
            blank_from(text@, from as int) == blank_from(text@, i as int),
        decreases text@.len() - i,
    {
        i = i + 1;
    }
    i
}

/// Reads a message that asks for a level view; see `view_request_of`.
pub fn parse_view_request(text: &[u8]) -> (r: Option<u16>)
    ensures
        r == view_request_of(text@),
{
    let a = find_blank(text, 0);
    if a != 1 || text[0] != 0x56 || a >= text.len() {
        return None;
    }
    let b = find_blank(text, a + 1);
    match read_unsigned(text, a + 1, b, 0xffff) {
        Some(book) => Some(book as u16),
        None => None,
    }
}

} // verus!
